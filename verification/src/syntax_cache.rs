//! The highlights of the files of a snapshot, kept by file and side.  A side
//! that cannot be highlighted is remembered as well, so that it is looked for
//! only once.
use std::sync::Arc;
use vstd::prelude::*;
use vstd::utf8::encode_utf8;
use crate::Error;
use crate::diff::{DiffLine, DiffLineKind, LineModel};
use crate::git::FileSide;
use crate::syntax::{highlighted_line, render_highlighted_line, HighlightSpan};
use crate::syntax_query::{
    build, chunk_queried, source_line, syntax_tree, CompiledQuery, HighlightModel, SideHighlight, CHUNK_LINES,
    MAX_FILE_SIZE,
};
use crate::theme::{Ansi, ThemeTokens};
use crate::util::same_bytes;

verus! {

/// What has become of highlighting a side of a file.
pub enum Outcome {
    Ready(SideHighlight),
    Unavailable,
    TooLarge,
}

/// A highlighted side: the query, the tree, and what has been asked for so far.
pub ghost struct SideModel {
    pub query: tree_sitter::Query,
    pub tree: tree_sitter::Tree,
    pub highlight: HighlightModel,
}

/// What an outcome is.
pub ghost enum OutcomeModel {
    Ready(SideModel),
    Unavailable,
    TooLarge,
}

/// What a highlighted side is.
pub open spec fn side_model(h: SideHighlight) -> SideModel {
    SideModel { query: h.query.query, tree: h.tree, highlight: h@ }
}

impl View for Outcome {
    type V = OutcomeModel;

    open spec fn view(&self) -> OutcomeModel {
        match *self {
            Outcome::Ready(h) => OutcomeModel::Ready(side_model(h)),
            Outcome::Unavailable => OutcomeModel::Unavailable,
            Outcome::TooLarge => OutcomeModel::TooLarge,
        }
    }
}

impl Outcome {
    pub open spec fn wf(&self) -> bool {
        *self matches Outcome::Ready(h) ==> h.wf()
    }
}

/// An outcome with the file and the side that it is for.
pub struct Entry {
    pub file_index: usize,
    pub side: FileSide,
    pub outcome: Outcome,
}

/// What an entry says.
pub ghost struct EntryModel {
    pub file_index: usize,
    pub side: FileSide,
    pub outcome: OutcomeModel,
}

impl View for Entry {
    type V = EntryModel;

    open spec fn view(&self) -> EntryModel {
        EntryModel { file_index: self.file_index, side: self.side, outcome: self.outcome@ }
    }
}

/// The outcomes so far, at most one for each side of a file.
pub struct SyntaxCache {
    pub entries: Vec<Entry>,
}

impl View for SyntaxCache {
    type V = Seq<EntryModel>;

    open spec fn view(&self) -> Seq<EntryModel> {
        self.entries@.map_values(|e: Entry| e@)
    }
}

/// Whether an entry is for a side of a file.
pub open spec fn is_for(e: Entry, file_index: usize, side: FileSide) -> bool {
    is_about(e@, file_index, side)
}

pub open spec fn is_about(e: EntryModel, file_index: usize, side: FileSide) -> bool {
    e.file_index == file_index && e.side == side
}

/// The side and number by which a line is found in its file.
pub open spec fn line_place(l: LineModel) -> Option<(FileSide, u32)> {
    match l.kind {
        DiffLineKind::Delete => match l.old_lineno {
            Some(n) => Some((FileSide::Old, n)),
            None => None,
        },
        DiffLineKind::Add => match l.new_lineno {
            Some(n) => Some((FileSide::New, n)),
            None => None,
        },
        DiffLineKind::Context => match l.new_lineno {
            Some(n) => Some((FileSide::New, n)),
            None => match l.old_lineno {
                Some(n) => Some((FileSide::Old, n)),
                None => None,
            },
        },
        DiffLineKind::Meta => None,
    }
}

pub fn line_ref(line: &DiffLine) -> (r: Option<(FileSide, u32)>)
    ensures
        r == line_place(line@),
{
    match line.kind {
        DiffLineKind::Delete => match line.old_lineno {
            Some(n) => Some((FileSide::Old, n)),
            None => None,
        },
        DiffLineKind::Add => match line.new_lineno {
            Some(n) => Some((FileSide::New, n)),
            None => None,
        },
        DiffLineKind::Context => match line.new_lineno {
            Some(n) => Some((FileSide::New, n)),
            None => match line.old_lineno {
                Some(n) => Some((FileSide::Old, n)),
                None => None,
            },
        },
        DiffLineKind::Meta => None,
    }
}

/// Whether nothing of a highlight has been asked for yet.
pub open spec fn is_fresh(h: SideHighlight) -> bool {
    &&& !h@.failed
    &&& forall|k: int| 0 <= k < h@.spans.len() ==> (#[trigger] h@.spans[k]).len() == 0
    &&& forall|k: int| 0 <= k < h@.chunks.len() ==> !#[trigger] h@.chunks[k]
}

/// What becomes of a side of a file, given its grammar and what loading its
/// source came to.  Failures other than those that highlighting knows are
/// passed on.
pub fn compute_outcome(
    grammar: Option<(tree_sitter::Language, Arc<CompiledQuery>)>,
    source: Result<Option<Vec<u8>>, Error>,
) -> (r: Result<Outcome, Error>)
    requires
        grammar matches Some((_, query)) ==> query.wf(),
    ensures
        match r {
            Ok(o) => o.wf() && match o {
                Outcome::Ready(h) => grammar matches Some((language, query)) && (
                source matches Ok(Some(s)) && s@.len() <= MAX_FILE_SIZE && h@.source == s@
                    && syntax_tree(language, s@) == Some(h.tree) && h.query == query && is_fresh(h)),
                Outcome::TooLarge => grammar is Some && match source {
                    Ok(Some(s)) => s@.len() > MAX_FILE_SIZE,
                    Ok(None) => false,
                    Err(e) => e == Error::SourceTooLarge,
                },
                Outcome::Unavailable => match grammar {
                    Some((language, _)) => match source {
                        Ok(Some(s)) => s@.len() <= MAX_FILE_SIZE && syntax_tree(
                            language,
                            s@,
                        ) is None,
                        Ok(None) => true,
                        Err(e) => e == Error::SyntaxUnavailable,
                    },
                    None => true,
                },
            },
            Err(e) => grammar is Some && source == Err::<Option<Vec<u8>>, Error>(e) && e
                != Error::SyntaxUnavailable && e != Error::SourceTooLarge,
        },
{
    let (language, query) = match grammar {
        Some(g) => g,
        None => {
            return Ok(Outcome::Unavailable);
        },
    };
    let bytes = match source {
        Ok(Some(b)) => b,
        Ok(None) => {
            return Ok(Outcome::Unavailable);
        },
        Err(Error::SyntaxUnavailable) => {
            return Ok(Outcome::Unavailable);
        },
        Err(Error::SourceTooLarge) => {
            return Ok(Outcome::TooLarge);
        },
        Err(e) => {
            return Err(e);
        },
    };
    match build(language, query, bytes) {
        Ok(h) => {
            assert(is_fresh(h));
            Ok(Outcome::Ready(h))
        },
        Err(Error::SourceTooLarge) => Ok(Outcome::TooLarge),
        Err(_) => Ok(Outcome::Unavailable),
    }
}

/// The first entry from `i` on for a side of a file.
pub open spec fn entry_for(
    entries: Seq<EntryModel>,
    file_index: usize,
    side: FileSide,
    i: int,
) -> Option<int>
    decreases entries.len() - i,
{
    if i < 0 || i >= entries.len() {
        None
    } else if is_about(entries[i], file_index, side) {
        Some(i)
    } else {
        entry_for(entries, file_index, side, i + 1)
    }
}

/// A side when a line has been asked for: the chunk of the line has been
/// queried.
pub open spec fn after_asking(side: SideModel, number: u32) -> SideModel {
    let h = side.highlight;
    let chunk = (number - 1) / (CHUNK_LINES as int);
    if h.failed || h.chunks[chunk] {
        side
    } else {
        SideModel { highlight: chunk_queried(side.query, side.tree, h, chunk), ..side }
    }
}

/// The spans of a line.
pub open spec fn spans_of(side: SideModel, number: u32) -> Seq<HighlightSpan> {
    let m = after_asking(side, number).highlight;
    if m.failed {
        seq![]
    } else {
        m.spans[number - 1]
    }
}

/// The entry that a line of a file is coloured from, and the number of the
/// line there.
pub open spec fn place_in(entries: Seq<EntryModel>, file_index: usize, line: LineModel) -> Option<
    (int, u32),
> {
    match line_place(line) {
        Some((side, number)) => match entry_for(entries, file_index, side, 0) {
            Some(k) => Some((k, number)),
            None => None,
        },
        None => None,
    }
}

/// A line with its tokens coloured, or why it cannot be.  A side that is not
/// there, cannot be highlighted, or does not hold the line, makes that
/// unavailable.
pub open spec fn coloured_line(
    entries: Seq<EntryModel>,
    ansi: Ansi,
    palette: ThemeTokens,
    file_index: usize,
    line: LineModel,
) -> Result<Seq<char>, Error> {
    match place_in(entries, file_index, line) {
        Some((k, number)) => if !ansi.enabled {
            Err(Error::SyntaxUnavailable)
        } else {
            match entries[k].outcome {
                OutcomeModel::Unavailable => Err(Error::SyntaxUnavailable),
                OutcomeModel::TooLarge => Err(Error::SourceTooLarge),
                OutcomeModel::Ready(side) => if source_line(
                    side.highlight.source,
                    number as int,
                ) == Some(encode_utf8(line.text)) {
                    Ok(highlighted_line(line.text, spans_of(side, number), ansi, palette))
                } else {
                    Err(Error::SyntaxUnavailable)
                },
            }
        },
        None => Err(Error::SyntaxUnavailable),
    }
}

/// The outcomes when a line has been coloured: the side that it was coloured
/// from has been asked for it.
pub open spec fn after_colouring(
    entries: Seq<EntryModel>,
    ansi: Ansi,
    palette: ThemeTokens,
    file_index: usize,
    line: LineModel,
) -> Seq<EntryModel> {
    if coloured_line(entries, ansi, palette, file_index, line) is Ok {
        let (k, number) = place_in(entries, file_index, line)->0;
        entries.update(
            k,
            EntryModel {
                outcome: OutcomeModel::Ready(
                    after_asking(entries[k].outcome->Ready_0, number),
                ),
                ..entries[k]
            },
        )
    } else {
        entries
    }
}

pub open spec fn text_result(r: Result<String, Error>) -> Result<Seq<char>, Error> {
    match r {
        Ok(t) => Ok(t@),
        Err(e) => Err(e),
    }
}

impl Default for SyntaxCache {
    fn default() -> (r: SyntaxCache)
        ensures
            r.wf(),
            r.entries@.len() == 0,
    {
        SyntaxCache { entries: Vec::new() }
    }
}

impl SyntaxCache {
    pub open spec fn wf(&self) -> bool {
        &&& forall|k: int| 0 <= k < self.entries@.len() ==> (#[trigger] self.entries@[k]).outcome.wf()
        &&& forall|j: int, k: int|
            0 <= j < k < self.entries@.len() ==> !is_for(
                #[trigger] self.entries@[k],
                (#[trigger] self.entries@[j]).file_index,
                self.entries@[j].side,
            )
    }

    /// Whether there is an outcome for a side of a file.
    pub open spec fn has(&self, file_index: usize, side: FileSide) -> bool {
        exists|k: int|
            0 <= k < self.entries@.len() && is_for(#[trigger] self.entries@[k], file_index, side)
    }

    fn find(&self, file_index: usize, side: FileSide) -> (r: Option<usize>)
        ensures
            match r {
                Some(i) => i < self.entries@.len() && is_for(
                    self.entries@[i as int],
                    file_index,
                    side,
                ) && entry_for(self@, file_index, side, 0) == Some(i as int),
                None => !self.has(file_index, side) && entry_for(
                    self@,
                    file_index,
                    side,
                    0,
                ) is None,
            },
    {
        let mut i: usize = 0;
        while i < self.entries.len()
            invariant
                i <= self.entries@.len(),
                entry_for(self@, file_index, side, 0) == entry_for(
                    self@,
                    file_index,
                    side,
                    i as int,
                ),
                forall|k: int|
                    0 <= k < i ==> !is_for(#[trigger] self.entries@[k], file_index, side),
            decreases self.entries@.len() - i,
        {
            assert(self@[i as int] == self.entries@[i as int]@);
            if self.entries[i].file_index == file_index && self.entries[i].side == side {
                return Some(i);
            }
            i += 1;
        }
        None
    }

    /// Whether a side of a file still has to be loaded.
    pub fn is_missing(&self, file_index: usize, side: FileSide) -> (r: bool)
        ensures
            r == !self.has(file_index, side),
            r == (entry_for(self@, file_index, side, 0) is None),
    {
        match self.find(file_index, side) {
            Some(i) => {
                assert(is_for(self.entries@[i as int], file_index, side));
                false
            },
            None => true,
        }
    }

    /// Keep the outcome for a side of a file, unless there is one already.
    pub fn insert(&mut self, file_index: usize, side: FileSide, outcome: Outcome)
        requires
            old(self).wf(),
            outcome.wf(),
        ensures
            final(self).wf(),
            old(self).has(file_index, side) ==> final(self).entries@ == old(self).entries@,
            !old(self).has(file_index, side) ==> final(self).entries@ == old(self).entries@.push(
                Entry { file_index, side, outcome },
            ),
    {
        if self.is_missing(file_index, side) {
            let ghost before = self.entries@;
            self.entries.push(Entry { file_index, side, outcome });
            assert forall|j: int, k: int| 0 <= j < k < self.entries@.len() implies !is_for(
                #[trigger] self.entries@[k],
                (#[trigger] self.entries@[j]).file_index,
                self.entries@[j].side,
            ) by {
                if k == before.len() {
                    assert(!is_for(before[j], file_index, side));
                }
            }
        }
    }

    /// A line of a diff with its tokens coloured.  A side that is not there,
    /// cannot be highlighted, or does not hold the line, makes that
    /// unavailable.
    pub fn highlight_diff_line(
        &mut self,
        ansi: Ansi,
        palette: ThemeTokens,
        file_index: usize,
        line: &DiffLine,
    ) -> (r: Result<String, Error>)
        requires
            old(self).wf(),
        ensures
            final(self).wf(),
            text_result(r) == coloured_line(old(self)@, ansi, palette, file_index, line@),
            final(self)@ == after_colouring(old(self)@, ansi, palette, file_index, line@),
            forall|f: usize, s: FileSide| old(self).has(f, s) == #[trigger] final(self).has(f, s),
    {
        if !ansi.enabled {
            return Err(Error::SyntaxUnavailable);
        }
        let (side, number) = match line_ref(line) {
            Some(p) => p,
            None => {
                return Err(Error::SyntaxUnavailable);
            },
        };
        let index: usize = match self.find(file_index, side) {
            Some(i) => i,
            None => {
                return Err(Error::SyntaxUnavailable);
            },
        };
        let ghost cache = self@;
        assert(place_in(cache, file_index, line@) == Some((index as int, number)));
        assert(cache[index as int] == self.entries@[index as int]@);
        let ghost before = self.entries@;
        let mut entry = self.entries.remove(index);
        let ghost entry0 = entry;
        assert(entry0 == before[index as int]);
        let result = match &mut entry.outcome {
            Outcome::Unavailable => Err(Error::SyntaxUnavailable),
            Outcome::TooLarge => Err(Error::SourceTooLarge),
            Outcome::Ready(h) => {
                let same: bool = match h.line_text(number) {
                    Some(t) => same_bytes(t, line.text.as_str().as_bytes()),
                    None => false,
                };
                if same {
                    let spans = h.line_spans(number);
                    let text = render_highlighted_line(
                        ansi,
                        palette,
                        line.text.as_str(),
                        spans.as_slice(),
                    );
                    assert(highlighted_line(line@.text, spans@, ansi, palette) == text@);
                    Ok(text)
                } else {
                    Err(Error::SyntaxUnavailable)
                }
            },
        };
        assert(entry.file_index == entry0.file_index && entry.side == entry0.side);
        assert(entry.outcome.wf());
        self.entries.insert(index, entry);
        proof {
            let after = self.entries@;
            assert(after.len() == before.len());
            assert(self@ =~= after_colouring(cache, ansi, palette, file_index, line@)) by {
                assert forall|k: int| 0 <= k < after.len() && k != index implies self@[k]
                    == cache[k] by {
                    assert(after[k] == before[k]);
                }
            }
            assert forall|k: int| 0 <= k < after.len() implies (#[trigger] after[k]).file_index
                == before[k].file_index && after[k].side == before[k].side && after[k].outcome.wf() by {
                if k != index {
                    assert(after[k] == before[k]);
                }
            }
            assert forall|j: int, k: int| 0 <= j < k < after.len() implies !is_for(
                #[trigger] after[k],
                (#[trigger] after[j]).file_index,
                after[j].side,
            ) by {
                assert(!is_for(before[k], before[j].file_index, before[j].side));
            }
            assert forall|f: usize, s: FileSide| old(self).has(f, s) == #[trigger] self.has(f, s) by {
                if old(self).has(f, s) {
                    let k = choose|k: int| 0 <= k < before.len() && is_for(#[trigger] before[k], f, s);
                    assert(is_for(after[k], f, s));
                }
                if self.has(f, s) {
                    let k = choose|k: int| 0 <= k < after.len() && is_for(#[trigger] after[k], f, s);
                    assert(is_for(before[k], f, s));
                }
            }
            assert forall|k: int| 0 <= k < before.len() && is_for(
                #[trigger] before[k],
                file_index,
                side,
            ) implies k == index by {
                if k < index {
                    assert(!is_for(before[index as int], before[k].file_index, before[k].side));
                } else if k > index {
                    assert(!is_for(
                        before[k],
                        before[index as int].file_index,
                        before[index as int].side,
                    ));
                }
            }
        }
        result
    }
}

} // verus!
