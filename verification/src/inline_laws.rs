//! Beside the changed parts two lines read the same.
use vstd::prelude::*;
use crate::inline_diff::{
    changed_cuts, common, common_prefix, common_suffix, cover_from, first_solid, group_cut,
    group_cuts, kind_of, last_solid, law_tokens_cover, lemma_matches, lemma_next_flag, lemma_solid,
    lemma_run_end, middle, new_flags, next_flag, old_flags, run_end, token_end, tokens, tokens_from,
    too_long, words, Cut, TokenKind, TokenModel,
};

verus! {

/// White space.
pub open spec fn white(c: char) -> bool {
    c == ' ' || c == '\t' || c == '\r' || c == '\n'
}

/// The characters of a text that are no white space.
pub open spec fn without_white(s: Seq<char>) -> Seq<char>
    decreases s.len(),
{
    if s.len() == 0 {
        seq![]
    } else if white(s.last()) {
        without_white(s.drop_last())
    } else {
        without_white(s.drop_last()).push(s.last())
    }
}

/// Whether a character of a line lies in one of the changed parts.
pub open spec fn in_part(cuts: Seq<Cut>, x: int) -> bool {
    exists|k: int| 0 <= k < cuts.len() && (#[trigger] cuts[k]).from <= x < cuts[k].to
}

/// The first `n` characters of a line that lie beside its changed parts and
/// are no white space.
pub open spec fn beside(s: Seq<char>, cuts: Seq<Cut>, n: int) -> Seq<char>
    decreases n,
{
    if n <= 0 {
        seq![]
    } else if in_part(cuts, n - 1) || white(s[n - 1]) {
        beside(s, cuts, n - 1)
    } else {
        beside(s, cuts, n - 1).push(s[n - 1])
    }
}

// ---------------------------------------------------------------------------
// Tokens
// ---------------------------------------------------------------------------

proof fn lemma_run_kind(s: Seq<char>, i: int, kind: TokenKind, x: int)
    requires
        0 <= i <= x < run_end(s, i, kind),
        i <= s.len(),
    ensures
        x < s.len(),
        kind_of(s[x]) == kind,
    decreases s.len() - i,
{
    if i < s.len() && kind_of(s[i]) == kind && i < x {
        lemma_run_kind(s, i + 1, kind, x);
    }
}

/// All characters of a token are of its kind.
proof fn lemma_token_kind(s: Seq<char>, i: int, k: int, x: int)
    requires
        0 <= i <= s.len(),
        0 <= k < tokens_from(s, i).len(),
        tokens_from(s, i)[k].from <= x < tokens_from(s, i)[k].to,
    ensures
        0 <= x < s.len(),
        kind_of(s[x]) == tokens_from(s, i)[k].kind,
    decreases s.len() - i,
{
    let e = token_end(s, i);
    let t = tokens_from(s, i);
    lemma_run_end(s, i + 1, kind_of(s[i]));
    if k == 0 {
        if kind_of(s[i]) != TokenKind::Punct && x > i {
            lemma_run_kind(s, i + 1, kind_of(s[i]), x);
        }
    } else {
        assert(t[k] == tokens_from(s, e)[k - 1]);
        lemma_token_kind(s, e, k - 1, x);
    }
}

/// An unmatched token lies in a changed part, unless it is white space; a
/// matched one lies beside all of them.
proof fn lemma_token_parts(
    s: Seq<char>,
    t: Seq<TokenModel>,
    matched: Seq<bool>,
    i: int,
    k: int,
)
    requires
        cover_from(s, t, 0),
        matched.len() == t.len(),
        0 <= i <= k < t.len(),
    ensures
        !matched[k] && t[k].kind != TokenKind::Whitespace ==> exists|c: int|
            0 <= c < group_cuts(t, matched, i).len() && (#[trigger] group_cuts(
                t,
                matched,
                i,
            )[c]).from <= t[k].from && t[k].to <= group_cuts(t, matched, i)[c].to,
        matched[k] ==> forall|c: int|
            0 <= c < group_cuts(t, matched, i).len() ==> (#[trigger] group_cuts(
                t,
                matched,
                i,
            )[c]).to <= t[k].from || t[k].to <= group_cuts(t, matched, i)[c].from,
    decreases t.len() - i,
{
    lemma_next_flag(matched, i, false);
    let start = next_flag(matched, i, false);
    lemma_next_flag(matched, start, true);
    let end = next_flag(matched, start, true);
    let all = group_cuts(t, matched, i);
    if start < t.len() {
        assert(end > start);
        let cut = group_cut(t, start, end);
        let rest = group_cuts(t, matched, end);
        assert(all == seq![cut] + rest);
        lemma_solid(t, start, end);
        let f = first_solid(t, start, end);
        let l = last_solid(t, start, end);
        assert(t[start].from <= cut.from && cut.to <= t[end - 1].to) by {
            assert(t[start].from < t[start].to);
            if f < end && start < f {
                assert(t[start].to <= t[f].from);
            }
            if f < end && l < end {
                assert(t[l - 1].to <= t[end - 1].from);
                assert(t[end - 1].from < t[end - 1].to);
            }
        }
        if k < start {
            assert(matched[k]);
            lemma_cuts_start(s, t, matched, end);
            assert forall|c: int| 0 <= c < all.len() implies (#[trigger] all[c]).to <= t[k].from
                || t[k].to <= all[c].from by {
                assert(t[k].to <= t[start].from);
                if c > 0 {
                    assert(all[c] == rest[c - 1]);
                    assert(t[end - 1].to <= rest[c - 1].from);
                    assert(t[start].from < t[start].to);
                    assert(start < end - 1 ==> t[start].to <= t[end - 1].from);
                    assert(t[end - 1].from < t[end - 1].to);
                }
            }
        } else if k < end {
            assert(!matched[k]);
            if t[k].kind != TokenKind::Whitespace {
                assert(f <= k < l);
                assert(t[f].from <= t[k].from) by {
                    if f < k {
                        assert(t[f].to <= t[k].from);
                        assert(t[f].from < t[f].to);
                    }
                }
                assert(t[k].to <= t[l - 1].to) by {
                    if k < l - 1 {
                        assert(t[k].to <= t[l - 1].from);
                        assert(t[l - 1].from < t[l - 1].to);
                    }
                }
                assert(all[0] == cut);
            }
        } else {
            lemma_token_parts(s, t, matched, end, k);
            if !matched[k] && t[k].kind != TokenKind::Whitespace {
                let c = choose|c: int|
                    0 <= c < rest.len() && (#[trigger] rest[c]).from <= t[k].from && t[k].to
                        <= rest[c].to;
                assert(all[c + 1] == rest[c]);
            }
            if matched[k] {
                assert forall|c: int| 0 <= c < all.len() implies (#[trigger] all[c]).to
                    <= t[k].from || t[k].to <= all[c].from by {
                    if c > 0 {
                        assert(all[c] == rest[c - 1]);
                    } else {
                        assert(t[end - 1].to <= t[k].from);
                    }
                }
            }
        }
    }
}

/// The parts of the tokens from `i` on begin behind the token before.
proof fn lemma_cuts_start(s: Seq<char>, t: Seq<TokenModel>, matched: Seq<bool>, i: int)
    requires
        cover_from(s, t, 0),
        matched.len() == t.len(),
        0 < i <= t.len(),
    ensures
        forall|c: int|
            0 <= c < group_cuts(t, matched, i).len() ==> t[i - 1].to <= (#[trigger] group_cuts(
                t,
                matched,
                i,
            )[c]).from,
    decreases t.len() - i,
{
    lemma_next_flag(matched, i, false);
    let start = next_flag(matched, i, false);
    lemma_next_flag(matched, start, true);
    let end = next_flag(matched, start, true);
    let all = group_cuts(t, matched, i);
    if start < t.len() {
        assert(end > start);
        let rest = group_cuts(t, matched, end);
        lemma_cuts_start(s, t, matched, end);
        lemma_solid(t, start, end);
        assert(t[i - 1].to <= t[start].from);
        let f = first_solid(t, start, end);
        assert forall|c: int| 0 <= c < all.len() implies t[i - 1].to <= (#[trigger] all[c]).from by {
            if c > 0 {
                assert(all[c] == rest[c - 1]);
                assert(t[i - 1].to <= t[end - 1].from);
                assert(t[end - 1].from < t[end - 1].to);
            } else if f < end && start < f {
                assert(t[start].to <= t[f].from);
                assert(t[start].from < t[start].to);
            }
        }
    }
}

/// The texts of the matched ones of the first `n` tokens.
spec fn matched_text(ws: Seq<Seq<char>>, matched: Seq<bool>, n: int) -> Seq<char>
    decreases n,
{
    if n <= 0 {
        seq![]
    } else {
        matched_text(ws, matched, n - 1) + if matched[n - 1] {
            without_white(ws[n - 1])
        } else {
            seq![]
        }
    }
}

proof fn lemma_beside_token(
    s: Seq<char>,
    t: Seq<TokenModel>,
    matched: Seq<bool>,
    k: int,
    x: int,
)
    requires
        t == tokens(s),
        matched.len() == t.len(),
        0 <= k < t.len(),
        t[k].from <= x <= t[k].to,
    ensures
        ({
            let cuts = group_cuts(t, matched, 0);
            beside(s, cuts, x) == beside(s, cuts, t[k].from) + if matched[k] {
                without_white(s.subrange(t[k].from, x))
            } else {
                seq![]
            }
        }),
    decreases x - t[k].from,
{
    law_tokens_cover(s);
    let cuts = group_cuts(t, matched, 0);
    let from = t[k].from;
    assert(0 <= from < t[k].to <= s.len());
    if x == from {
        assert(s.subrange(from, x) =~= Seq::<char>::empty());
        assert(beside(s, cuts, from) + Seq::<char>::empty() =~= beside(s, cuts, from));
    } else {
        lemma_beside_token(s, t, matched, k, x - 1);
        lemma_token_kind(s, 0, k, x - 1);
        lemma_token_parts(s, t, matched, 0, k);
        let part = s.subrange(from, x);
        assert(part.drop_last() =~= s.subrange(from, x - 1));
        assert(part.last() == s[x - 1]);
        if matched[k] {
            assert(!in_part(cuts, x - 1));
            assert(beside(s, cuts, x) =~= beside(s, cuts, from) + without_white(part));
        } else if !white(s[x - 1]) {
            let c = choose|c: int|
                0 <= c < cuts.len() && (#[trigger] cuts[c]).from <= t[k].from && t[k].to
                    <= cuts[c].to;
            assert(cuts[c].from <= x - 1 < cuts[c].to);
            assert(in_part(cuts, x - 1));
        }
    }
}

proof fn lemma_beside_tokens(s: Seq<char>, matched: Seq<bool>, n: int)
    requires
        matched.len() == tokens(s).len(),
        0 <= n <= tokens(s).len(),
    ensures
        ({
            let t = tokens(s);
            let end = if n == 0 {
                0
            } else {
                t[n - 1].to
            };
            beside(s, group_cuts(t, matched, 0), end) == matched_text(words(s, t), matched, n)
        }),
    decreases n,
{
    let t = tokens(s);
    law_tokens_cover(s);
    if n > 0 {
        lemma_beside_tokens(s, matched, n - 1);
        lemma_beside_token(s, t, matched, n - 1, t[n - 1].to);
        if n == 1 {
            assert(t[0].from == 0);
        } else {
            assert(t[n - 2].to == t[n - 1].from);
        }
        assert(words(s, t)[n - 1] == s.subrange(t[n - 1].from, t[n - 1].to));
    }
}

proof fn lemma_beside_all(s: Seq<char>, matched: Seq<bool>)
    requires
        matched.len() == tokens(s).len(),
    ensures
        beside(s, group_cuts(tokens(s), matched, 0), s.len() as int) == matched_text(
            words(s, tokens(s)),
            matched,
            tokens(s).len() as int,
        ),
{
    law_tokens_cover(s);
    lemma_beside_tokens(s, matched, tokens(s).len() as int);
}

// ---------------------------------------------------------------------------
// Pairs
// ---------------------------------------------------------------------------

/// The texts of the first `m` pairs, on the old side.
spec fn pairs_text(ws: Seq<Seq<char>>, p: Seq<(int, int)>, m: int) -> Seq<char>
    decreases m,
{
    if m <= 0 {
        seq![]
    } else {
        pairs_text(ws, p, m - 1) + without_white(ws[p[m - 1].0])
    }
}

proof fn lemma_flag_text(ws: Seq<Seq<char>>, p: Seq<(int, int)>, n: int, m: int)
    requires
        0 <= n <= ws.len(),
        0 <= m <= p.len(),
        forall|k: int| 0 <= k < p.len() ==> 0 <= (#[trigger] p[k]).0 < ws.len(),
        forall|k: int, l: int| 0 <= k < l < p.len() ==> (#[trigger] p[k]).0 < (#[trigger] p[l]).0,
        forall|k: int| 0 <= k < m ==> (#[trigger] p[k]).0 < n,
        forall|k: int| m <= k < p.len() ==> (#[trigger] p[k]).0 >= n,
    ensures
        matched_text(ws, old_flags(p, ws.len()), n) == pairs_text(ws, p, m),
    decreases n,
{
    let flags = old_flags(p, ws.len());
    if n > 0 {
        if flags[n - 1] {
            let k = choose|k: int| 0 <= k < p.len() && (#[trigger] p[k]).0 == n - 1;
            assert(k == m - 1) by {
                if k < m - 1 {
                    assert(p[k].0 < p[m - 1].0);
                }
            }
            assert forall|j: int| 0 <= j < m - 1 implies (#[trigger] p[j]).0 < n - 1 by {
                assert(p[j].0 < p[m - 1].0);
            }
            lemma_flag_text(ws, p, n - 1, m - 1);
        } else {
            assert forall|j: int| 0 <= j < m implies (#[trigger] p[j]).0 < n - 1 by {
                if p[j].0 == n - 1 {
                    assert(flags[n - 1]);
                }
            }
            lemma_flag_text(ws, p, n - 1, m);
            assert(matched_text(ws, flags, n) =~= matched_text(ws, flags, n - 1));
        }
    } else if m > 0 {
        assert(p[0].0 < 0);
    }
}

/// The pairs with their sides changed over.
spec fn turned(p: Seq<(int, int)>) -> Seq<(int, int)> {
    Seq::new(p.len(), |k: int| (p[k].1, p[k].0))
}

proof fn lemma_turned_flags(p: Seq<(int, int)>, n: nat)
    ensures
        new_flags(p, n) == old_flags(turned(p), n),
{
    let q = turned(p);
    assert forall|k: int| 0 <= k < n implies new_flags(p, n)[k] == old_flags(q, n)[k] by {
        if new_flags(p, n)[k] {
            let m = choose|m: int| 0 <= m < p.len() && (#[trigger] p[m]).1 == k;
            assert(q[m].0 == k);
        }
        if old_flags(q, n)[k] {
            let m = choose|m: int| 0 <= m < q.len() && (#[trigger] q[m]).0 == k;
            assert(p[m].1 == k);
        }
    }
    assert(new_flags(p, n) =~= old_flags(q, n));
}

proof fn lemma_pairs_same(
    a: Seq<Seq<char>>,
    b: Seq<Seq<char>>,
    p: Seq<(int, int)>,
    m: int,
)
    requires
        common(a, b, p, 0, 0),
        0 <= m <= p.len(),
    ensures
        pairs_text(a, p, m) == pairs_text(b, turned(p), m),
    decreases m,
{
    if m > 0 {
        lemma_pairs_same(a, b, p, m - 1);
        assert(a[p[m - 1].0] == b[p[m - 1].1]);
    }
}

// ---------------------------------------------------------------------------
// Common ends
// ---------------------------------------------------------------------------

proof fn lemma_common_prefix(a: Seq<char>, b: Seq<char>)
    ensures
        common_prefix(a, b) <= a.len(),
        common_prefix(a, b) <= b.len(),
        a.take(common_prefix(a, b) as int) == b.take(common_prefix(a, b) as int),
    decreases a.len(),
{
    if a.len() > 0 && b.len() > 0 && a[0] == b[0] {
        lemma_common_prefix(a.skip(1), b.skip(1));
        let n = common_prefix(a, b) as int;
        assert(a.take(n) =~= seq![a[0]] + a.skip(1).take(n - 1));
        assert(b.take(n) =~= seq![b[0]] + b.skip(1).take(n - 1));
    } else {
        assert(a.take(0) =~= b.take(0));
    }
}

proof fn lemma_common_suffix(a: Seq<char>, b: Seq<char>)
    ensures
        common_suffix(a, b) <= a.len(),
        common_suffix(a, b) <= b.len(),
        a.skip(a.len() - common_suffix(a, b)) == b.skip(b.len() - common_suffix(a, b)),
    decreases a.len(),
{
    let n = common_suffix(a, b) as int;
    if a.len() > 0 && b.len() > 0 && a.last() == b.last() {
        let s = a.drop_last();
        let t = b.drop_last();
        lemma_common_suffix(s, t);
        assert(a.skip(a.len() - n) =~= s.skip(s.len() - (n - 1)).push(a.last()));
        assert(b.skip(b.len() - n) =~= t.skip(t.len() - (n - 1)).push(b.last()));
    } else {
        assert(a.skip(a.len() as int) =~= b.skip(b.len() as int));
    }
}

/// Beside one part, a line reads as what stands before it and behind it.
proof fn lemma_beside_middle(s: Seq<char>, p: nat, q: nat, n: int)
    requires
        p + q <= s.len(),
        0 <= n <= s.len(),
    ensures
        ({
            let cuts = middle(s, p, q);
            let end = s.len() - q;
            beside(s, cuts, n) == if n <= p {
                without_white(s.take(n))
            } else if n <= end {
                without_white(s.take(p as int))
            } else {
                without_white(s.take(p as int)) + without_white(s.subrange(end, n))
            }
        }),
    decreases n,
{
    let cuts = middle(s, p, q);
    let end = s.len() - q;
    if n == 0 {
        assert(s.take(0) =~= Seq::<char>::empty());
    } else {
        lemma_beside_middle(s, p, q, n - 1);
        let x = n - 1;
        if n <= p {
            assert(!in_part(cuts, x));
            assert(s.take(n).drop_last() =~= s.take(x));
        } else if n <= end {
            assert(cuts[0].from <= x < cuts[0].to);
            assert(in_part(cuts, x));
            if x == p {
                assert(s.take(x) =~= s.take(p as int));
            }
        } else {
            assert(!in_part(cuts, x));
            let part = s.subrange(end, n);
            assert(part.drop_last() =~= s.subrange(end, x));
            assert(part.last() == s[x]);
            if x == end {
                assert(s.subrange(end, x) =~= Seq::<char>::empty());
                assert(without_white(s.subrange(end, x)) =~= Seq::<char>::empty());
                if end == p {
                    assert(s.take(x) =~= s.take(p as int));
                }
                assert(beside(s, cuts, x) == without_white(s.take(p as int)));
            }
            let head = without_white(s.take(p as int));
            let tail = without_white(s.subrange(end, x));
            assert(beside(s, cuts, x) =~= head + tail);
            assert((head + tail).push(s[x]) =~= head + tail.push(s[x]));
            assert(beside(s, cuts, n) =~= without_white(s.take(p as int)) + without_white(part));
        }
    }
}

/// Beside their changed parts the old and the new line read the same, but for
/// white space: what is marked is all that they differ in.
pub proof fn law_lines_agree_beside_changes(old: Seq<char>, new: Seq<char>)
    ensures
        beside(old, changed_cuts(old, new).0, old.len() as int) == beside(
            new,
            changed_cuts(old, new).1,
            new.len() as int,
        ),
{
    let a = tokens(old);
    let b = tokens(new);
    if old != new {
        if too_long(a.len(), b.len()) {
            let p = common_prefix(old, new);
            lemma_common_prefix(old, new);
            let x = old.skip(p as int);
            let y = new.skip(p as int);
            let q = common_suffix(x, y);
            lemma_common_suffix(x, y);
            lemma_beside_middle(old, p, q, old.len() as int);
            lemma_beside_middle(new, p, q, new.len() as int);
            let eo = old.len() - q;
            let en = new.len() - q;
            assert(old.subrange(eo, old.len() as int) =~= x.skip(x.len() - q));
            assert(new.subrange(en, new.len() as int) =~= y.skip(y.len() - q));
            if q == 0 {
                assert(x.skip(x.len() - q) =~= Seq::<char>::empty());
                assert(y.skip(y.len() - q) =~= Seq::<char>::empty());
            }
            let head = without_white(old.take(p as int));
            assert(head + Seq::<char>::empty() =~= head);
        } else {
            let ws = words(old, a);
            let vs = words(new, b);
            let p = crate::inline_diff::matches(ws, vs, 0, 0);
            lemma_matches(ws, vs, 0, 0);
            let q = turned(p);
            lemma_beside_all(old, old_flags(p, a.len()));
            lemma_beside_all(new, new_flags(p, b.len()));
            lemma_turned_flags(p, b.len());
            lemma_flag_text(ws, p, ws.len() as int, p.len() as int);
            assert forall|k: int, l: int| 0 <= k < l < q.len() implies (#[trigger] q[k]).0 < (
            #[trigger] q[l]).0 by {
                assert(p[k].1 < p[l].1);
            }
            assert forall|k: int| 0 <= k < q.len() implies 0 <= (#[trigger] q[k]).0 < vs.len() by {
                assert(p[k].1 < vs.len());
            }
            lemma_flag_text(vs, q, vs.len() as int, q.len() as int);
            lemma_pairs_same(ws, vs, p, p.len() as int);
        }
    }
}

} // verus!
