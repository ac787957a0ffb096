//! Comments and review states: their rules, and the documents that they are
//! kept in.
//!
//! Changes are made in two steps.  A method works out what the lists would
//! become and the document to write; once the caller has tried to write it, the
//! change is applied, or refused and nothing is changed.
use vstd::prelude::*;
use vstd::utf8::encode_utf8;
use crate::Error;
use crate::diff::{
    make_id, short_id, DiffFile, DiffLine, DiffLineKind, DiffSnapshot, FileModel, LineModel,
};
use crate::json::{
    copy_fields, copy_list, fields_of, field_models, fields_readable, find_field, float_bits, found, get, get_field,
    law_set_then_get, lemma_models, model, models, opt_bytes, parse_json, parsed_json, readable, set_field, whole_number,
    whole_part, with_field, Field, Json, JsonModel, MAX_NESTING,
};
use crate::util::{
    copy_bytes, copy_strings, decimal, push_bytes, push_decimal, same_text, texts, utf8,
};

verus! {

#[derive(Clone, Copy, Debug, PartialEq, Eq, Structural)]
pub enum MatchStatus {
    Exact,
    Relocated,
    Stale,
    Missing,
}

impl MatchStatus {
    pub open spec fn label_text(self) -> Seq<char> {
        match self {
            MatchStatus::Exact => "exact"@,
            MatchStatus::Relocated => "relocated"@,
            MatchStatus::Stale => "stale"@,
            MatchStatus::Missing => "missing"@,
        }
    }

    pub fn label(self) -> (r: &'static str)
        ensures
            r@ == self.label_text(),
    {
        match self {
            MatchStatus::Exact => "exact",
            MatchStatus::Relocated => "relocated",
            MatchStatus::Stale => "stale",
            MatchStatus::Missing => "missing",
        }
    }

    /// The status with the given label; an unknown label counts as exact.
    pub open spec fn of_label(label: Seq<char>) -> MatchStatus {
        if label == "relocated"@ {
            MatchStatus::Relocated
        } else if label == "stale"@ {
            MatchStatus::Stale
        } else if label == "missing"@ {
            MatchStatus::Missing
        } else {
            MatchStatus::Exact
        }
    }

    fn parse(label: &str) -> (r: MatchStatus)
        ensures
            r == MatchStatus::of_label(label@),
    {
        if same_text(label, "relocated") {
            MatchStatus::Relocated
        } else if same_text(label, "stale") {
            MatchStatus::Stale
        } else if same_text(label, "missing") {
            MatchStatus::Missing
        } else {
            MatchStatus::Exact
        }
    }

    pub open spec fn is_outdated(self) -> bool {
        self == MatchStatus::Stale || self == MatchStatus::Missing
    }

    fn outdated(self) -> (r: bool)
        ensures
            r == self.is_outdated(),
    {
        self == MatchStatus::Stale || self == MatchStatus::Missing
    }
}

#[derive(Debug)]
pub struct Comment {
    pub comment_id: String,
    pub repository_id: String,
    pub review_target_id: String,
    pub file_path: String,
    pub side: String,
    pub start_line: u32,
    pub end_line: u32,
    pub stable_line_id: String,
    pub hunk_header: String,
    pub context_before: Vec<String>,
    pub context_after: Vec<String>,
    pub patch_fingerprint: String,
    pub match_status: MatchStatus,
    pub body: String,
    pub author: String,
    pub created_at: String,
    pub updated_at: String,
    /// The fields that the comment was read with: further anchor identities
    /// and extension fields survive when it is written again.
    pub original: Vec<Field>,
}

/// What a comment says.
pub ghost struct CommentModel {
    pub comment_id: Seq<char>,
    pub repository_id: Seq<char>,
    pub review_target_id: Seq<char>,
    pub file_path: Seq<char>,
    pub side: Seq<char>,
    pub start_line: u32,
    pub end_line: u32,
    pub stable_line_id: Seq<char>,
    pub hunk_header: Seq<char>,
    pub context_before: Seq<Seq<char>>,
    pub context_after: Seq<Seq<char>>,
    pub patch_fingerprint: Seq<char>,
    pub match_status: MatchStatus,
    pub body: Seq<char>,
    pub author: Seq<char>,
    pub created_at: Seq<char>,
    pub updated_at: Seq<char>,
    pub original: Seq<(Seq<char>, JsonModel)>,
}

impl View for Comment {
    type V = CommentModel;

    open spec fn view(&self) -> CommentModel {
        CommentModel {
            comment_id: self.comment_id@,
            repository_id: self.repository_id@,
            review_target_id: self.review_target_id@,
            file_path: self.file_path@,
            side: self.side@,
            start_line: self.start_line,
            end_line: self.end_line,
            stable_line_id: self.stable_line_id@,
            hunk_header: self.hunk_header@,
            context_before: texts(self.context_before@),
            context_after: texts(self.context_after@),
            patch_fingerprint: self.patch_fingerprint@,
            match_status: self.match_status,
            body: self.body@,
            author: self.author@,
            created_at: self.created_at@,
            updated_at: self.updated_at@,
            original: field_models(self.original@),
        }
    }
}

pub open spec fn comment_models(v: Seq<Comment>) -> Seq<CommentModel> {
    v.map_values(|c: Comment| c@)
}

#[derive(Debug)]
pub struct ReviewState {
    pub repository_id: String,
    pub review_target_id: String,
    pub file_path: String,
    pub status: String,
    pub patch_fingerprint: String,
    pub updated_at: String,
    pub original: Vec<Field>,
}

/// What a review state says.
pub ghost struct StateModel {
    pub repository_id: Seq<char>,
    pub review_target_id: Seq<char>,
    pub file_path: Seq<char>,
    pub status: Seq<char>,
    pub patch_fingerprint: Seq<char>,
    pub updated_at: Seq<char>,
    pub original: Seq<(Seq<char>, JsonModel)>,
}

impl View for ReviewState {
    type V = StateModel;

    open spec fn view(&self) -> StateModel {
        StateModel {
            repository_id: self.repository_id@,
            review_target_id: self.review_target_id@,
            file_path: self.file_path@,
            status: self.status@,
            patch_fingerprint: self.patch_fingerprint@,
            updated_at: self.updated_at@,
            original: field_models(self.original@),
        }
    }
}

pub open spec fn state_models(v: Seq<ReviewState>) -> Seq<StateModel> {
    v.map_values(|s: ReviewState| s@)
}

#[derive(Debug)]
pub struct Store {
    pub comments: Vec<Comment>,
    pub states: Vec<ReviewState>,
    pub repo_dir: Vec<u8>,
    pub comments_root: Vec<Field>,
    pub states_root: Vec<Field>,
}

/// What a store holds.
pub ghost struct StoreModel {
    pub comments: Seq<CommentModel>,
    pub states: Seq<StateModel>,
    pub comments_root: Seq<(Seq<char>, JsonModel)>,
    pub states_root: Seq<(Seq<char>, JsonModel)>,
}

impl View for Store {
    type V = StoreModel;

    open spec fn view(&self) -> StoreModel {
        StoreModel {
            comments: comment_models(self.comments@),
            states: state_models(self.states@),
            comments_root: field_models(self.comments_root@),
            states_root: field_models(self.states_root@),
        }
    }
}

// ---------------------------------------------------------------------------
// Where the documents are kept
// ---------------------------------------------------------------------------

/// A path below another; an absolute one stands for itself.
pub open spec fn below(base: Seq<u8>, path: Seq<u8>) -> Seq<u8> {
    if path.len() > 0 && path[0] == 0x2f {
        path
    } else if base.len() == 0 || base.last() == 0x2f {
        base + path
    } else {
        base.push(0x2f) + path
    }
}

fn join_path(base: Vec<u8>, path: &str) -> (r: Vec<u8>)
    ensures
        r@ == below(base@, utf8(path)),
{
    let b = path.as_bytes();
    let mut out = base;
    if b.len() > 0 && b[0] == 0x2f {
        return copy_bytes(b);
    }
    if out.len() > 0 && out[out.len() - 1] != 0x2f {
        out.push(0x2f);
    }
    push_bytes(&mut out, b);
    out
}

/// The directory of a repository: in the directory for states that the
/// environment names, and otherwise below the home directory, or below the
/// current one where there is no home.
pub open spec fn repository_directory(
    state_home: Option<Seq<u8>>,
    home: Option<Seq<u8>>,
    repo_id: Seq<u8>,
) -> Seq<u8> {
    let base = match state_home {
        Some(s) => below(s, utf8("diffo")),
        None => below(
            match home {
                Some(h) => h,
                None => utf8("."),
            },
            utf8(".local/state/diffo"),
        ),
    };
    below(below(base, utf8("repos")), repo_id)
}

pub fn state_directory(state_home: Option<Vec<u8>>, home: Option<Vec<u8>>, repo_id: &str) -> (r: Vec<
    u8,
>)
    ensures
        r@ == repository_directory(opt_bytes(state_home), opt_bytes(home), utf8(repo_id)),
{
    let base = match state_home {
        Some(path) => join_path(path, "diffo"),
        None => {
            let home = match home {
                Some(path) => path,
                None => copy_bytes(".".as_bytes()),
            };
            join_path(home, ".local/state/diffo")
        },
    };
    join_path(join_path(base, "repos"), repo_id)
}

// ---------------------------------------------------------------------------
// Reading the lists
// ---------------------------------------------------------------------------

/// How many comments before the index `n` satisfy a condition.
pub open spec fn count_comments(
    v: Seq<CommentModel>,
    keep: spec_fn(CommentModel) -> bool,
    n: int,
) -> nat
    decreases n,
{
    if n <= 0 {
        0
    } else {
        count_comments(v, keep, n - 1) + if keep(v[n - 1]) {
            1nat
        } else {
            0
        }
    }
}

/// A comment on a file of a target.
pub open spec fn on_file(file_path: Seq<char>, target_id: Seq<char>) -> spec_fn(
    CommentModel,
) -> bool {
    |c: CommentModel| c.file_path == file_path && c.review_target_id == target_id
}

/// Whether a comment passes a filter by file.
pub open spec fn passes(c: CommentModel, filter: Option<Seq<char>>) -> bool {
    match filter {
        Some(f) => c.file_path == f,
        None => true,
    }
}

/// A comment that clean-up removes: of the target, of the file where one is
/// given, and no longer matching.
pub open spec fn outdated_on(target_id: Seq<char>, filter: Option<Seq<char>>) -> spec_fn(
    CommentModel,
) -> bool {
    |c: CommentModel|
        c.review_target_id == target_id && passes(c, filter) && c.match_status.is_outdated()
}

/// A comment that a removal of all comments removes.
pub open spec fn any_on(filter: Option<Seq<char>>) -> spec_fn(CommentModel) -> bool {
    |c: CommentModel| passes(c, filter)
}

/// A file counts as reviewed while a state says so for the very patch that it
/// has now.
pub open spec fn reviewed(
    states: Seq<StateModel>,
    file_path: Seq<char>,
    patch_fingerprint: Seq<char>,
    target_id: Seq<char>,
) -> bool {
    exists|k: int|
        0 <= k < states.len() && (#[trigger] states[k]).file_path == file_path
            && states[k].review_target_id == target_id && states[k].status == "reviewed"@
            && states[k].patch_fingerprint == patch_fingerprint
}

/// The text of an optional string slice.
pub open spec fn filter_text(f: Option<&str>) -> Option<Seq<char>> {
    match f {
        Some(x) => Some(x@),
        None => None,
    }
}

pub fn matches_file(c: &Comment, filter: Option<&str>) -> (r: bool)
    ensures
        r == passes(c@, filter_text(filter)),
{
    match filter {
        Some(f) => same_text(c.file_path.as_str(), f),
        None => true,
    }
}

fn is_outdated_on(c: &Comment, target_id: &str, filter: Option<&str>) -> (r: bool)
    ensures
        r == outdated_on(target_id@, filter_text(filter))(c@),
{
    same_text(c.review_target_id.as_str(), target_id) && matches_file(c, filter)
        && c.match_status.outdated()
}

proof fn lemma_count_bound(v: Seq<CommentModel>, keep: spec_fn(CommentModel) -> bool, n: int)
    requires
        0 <= n,
    ensures
        count_comments(v, keep, n) <= n,
    decreases n,
{
    if n > 0 {
        lemma_count_bound(v, keep, n - 1);
    }
}

impl Store {
    /// The number of comments on a file of a target.
    pub fn comment_count(&self, file_path: &str, target_id: &str) -> (n: usize)
        ensures
            n == count_comments(
                self@.comments,
                on_file(file_path@, target_id@),
                self@.comments.len() as int,
            ),
    {
        let ghost keep = on_file(file_path@, target_id@);
        let mut n: usize = 0;
        let mut i: usize = 0;
        while i < self.comments.len()
            invariant
                keep == on_file(file_path@, target_id@),
                i <= self.comments@.len(),
                n == count_comments(self@.comments, keep, i as int),
                n <= i,
            decreases self.comments@.len() - i,
        {
            let c = &self.comments[i];
            assert(self@.comments[i as int] == c@);
            if same_text(c.file_path.as_str(), file_path) && same_text(
                c.review_target_id.as_str(),
                target_id,
            ) {
                n += 1;
            }
            i += 1;
        }
        n
    }

    pub fn is_reviewed(&self, file_path: &str, patch_fingerprint: &str, target_id: &str) -> (r:
        bool)
        ensures
            r == reviewed(self@.states, file_path@, patch_fingerprint@, target_id@),
    {
        let mut i: usize = 0;
        while i < self.states.len()
            invariant
                i <= self.states@.len(),
                forall|k: int|
                    0 <= k < i ==> !((#[trigger] self@.states[k]).file_path == file_path@
                        && self@.states[k].review_target_id == target_id@ && self@.states[k].status
                        == "reviewed"@ && self@.states[k].patch_fingerprint == patch_fingerprint@),
            decreases self.states@.len() - i,
        {
            let s = &self.states[i];
            assert(self@.states[i as int] == s@);
            if same_text(s.file_path.as_str(), file_path) && same_text(
                s.review_target_id.as_str(),
                target_id,
            ) && same_text(s.status.as_str(), "reviewed") && same_text(
                s.patch_fingerprint.as_str(),
                patch_fingerprint,
            ) {
                return true;
            }
            i += 1;
        }
        false
    }

    pub fn status_for_file(
        &self,
        file_path: &str,
        patch_fingerprint: &str,
        target_id: &str,
    ) -> (r: &'static str)
        ensures
            r@ == if reviewed(self@.states, file_path@, patch_fingerprint@, target_id@) {
                "reviewed"@
            } else {
                "unreviewed"@
            },
    {
        if self.is_reviewed(file_path, patch_fingerprint, target_id) {
            "reviewed"
        } else {
            "unreviewed"
        }
    }

    /// The number of comments that clean-up would remove.
    pub fn outdated_comment_count(&self, target_id: &str, file_filter: Option<&str>) -> (n: usize)
        ensures
            n == count_comments(
                self@.comments,
                outdated_on(target_id@, filter_text(file_filter)),
                self@.comments.len() as int,
            ),
    {
        let ghost keep = outdated_on(target_id@, filter_text(file_filter));
        let mut n: usize = 0;
        let mut i: usize = 0;
        while i < self.comments.len()
            invariant
                keep == outdated_on(target_id@, filter_text(file_filter)),
                i <= self.comments@.len(),
                n == count_comments(self@.comments, keep, i as int),
                n <= i,
            decreases self.comments@.len() - i,
        {
            assert(self@.comments[i as int] == self.comments@[i as int]@);
            if is_outdated_on(&self.comments[i], target_id, file_filter) {
                n += 1;
            }
            i += 1;
        }
        n
    }

    /// The number of comments that removing all would remove.
    pub fn all_comment_count(&self, file_filter: Option<&str>) -> (n: usize)
        ensures
            n == count_comments(
                self@.comments,
                any_on(filter_text(file_filter)),
                self@.comments.len() as int,
            ),
    {
        let ghost keep = any_on(filter_text(file_filter));
        let mut n: usize = 0;
        let mut i: usize = 0;
        while i < self.comments.len()
            invariant
                keep == any_on(filter_text(file_filter)),
                i <= self.comments@.len(),
                n == count_comments(self@.comments, keep, i as int),
                n <= i,
            decreases self.comments@.len() - i,
        {
            assert(self@.comments[i as int] == self.comments@[i as int]@);
            if matches_file(&self.comments[i], file_filter) {
                n += 1;
            }
            i += 1;
        }
        n
    }
}

// ---------------------------------------------------------------------------
// Entries of the documents
// ---------------------------------------------------------------------------

/// A text field, or a default.
pub open spec fn text_or(j: JsonModel, key: Seq<char>, default: Seq<char>) -> Seq<char> {
    match get(j, key) {
        Some(JsonModel::Text(s)) => s,
        _ => default,
    }
}

/// The 32-bit number that a value counts as; zero where it is no number or out
/// of range.
pub open spec fn counted(j: JsonModel) -> u32 {
    match j {
        JsonModel::Unsigned(n) => if n <= u32::MAX {
            n as u32
        } else {
            0
        },
        JsonModel::Signed(n) => if 0 <= n <= u32::MAX {
            n as u32
        } else {
            0
        },
        JsonModel::Float(n) => whole_part(float_bits(n)),
        _ => 0,
    }
}

/// A number field; zero where there is none.
pub open spec fn number_or_zero(j: JsonModel, key: Seq<char>) -> u32 {
    match get(j, key) {
        Some(v) => counted(v),
        None => 0,
    }
}

/// The texts of a list, other values left out.
pub open spec fn only_texts(v: Seq<JsonModel>) -> Seq<Seq<char>>
    decreases v.len(),
{
    if v.len() == 0 {
        seq![]
    } else {
        match v.last() {
            JsonModel::Text(s) => only_texts(v.drop_last()).push(s),
            _ => only_texts(v.drop_last()),
        }
    }
}

/// A field with a list of texts; empty where there is none.
pub open spec fn texts_or_empty(j: JsonModel, key: Seq<char>) -> Seq<Seq<char>> {
    match get(j, key) {
        Some(JsonModel::List(v)) => only_texts(v),
        _ => seq![],
    }
}

/// The comment that a document entry describes.
pub open spec fn comment_of(v: JsonModel) -> CommentModel {
    let anchor = get(v, "anchor"@);
    let a = match anchor {
        Some(x) => x,
        None => v,
    };
    CommentModel {
        comment_id: text_or(v, "comment_id"@, ""@),
        repository_id: text_or(v, "repository_id"@, ""@),
        review_target_id: text_or(v, "review_target_id"@, ""@),
        file_path: text_or(v, "file_path"@, ""@),
        side: text_or(a, "side"@, "new"@),
        start_line: number_or_zero(a, "start_line"@),
        end_line: number_or_zero(a, "end_line"@),
        stable_line_id: match anchor {
            Some(x) => match get(x, "stable_line_ids"@) {
                Some(JsonModel::List(ids)) => if ids.len() > 0 && ids[0] is Text {
                    ids[0]->Text_0
                } else {
                    ""@
                },
                _ => ""@,
            },
            None => ""@,
        },
        hunk_header: text_or(a, "hunk_header"@, ""@),
        context_before: texts_or_empty(a, "context_before"@),
        context_after: texts_or_empty(a, "context_after"@),
        patch_fingerprint: text_or(a, "patch_fingerprint"@, ""@),
        match_status: MatchStatus::of_label(
            match anchor {
                Some(x) => text_or(x, "match_status"@, "exact"@),
                None => "exact"@,
            },
        ),
        body: text_or(v, "body"@, ""@),
        author: text_or(v, "author"@, ""@),
        created_at: text_or(v, "created_at"@, ""@),
        updated_at: text_or(v, "updated_at"@, ""@),
        original: fields_of(v),
    }
}

/// A list of texts as a value.
pub open spec fn text_list(v: Seq<Seq<char>>) -> JsonModel {
    JsonModel::List(v.map_values(|s: Seq<char>| JsonModel::Text(s)))
}

/// The anchor identities with the first one set.
pub open spec fn with_first_id(ids: Seq<JsonModel>, id: Seq<char>) -> Seq<JsonModel> {
    if ids.len() == 0 {
        seq![JsonModel::Text(id)]
    } else {
        ids.update(0, JsonModel::Text(id))
    }
}

/// The list in a field; empty where there is none.
pub open spec fn list_or_empty(f: Seq<(Seq<char>, JsonModel)>, key: Seq<char>) -> Seq<JsonModel> {
    match found(f, key) {
        Some(JsonModel::List(v)) => v,
        _ => seq![],
    }
}

/// The fields of a comment's anchor, set over those that it was read with.
pub open spec fn anchor_fields(c: CommentModel, a: Seq<(Seq<char>, JsonModel)>) -> Seq<
    (Seq<char>, JsonModel),
> {
    let a = with_field(a, "side"@, JsonModel::Text(c.side));
    let a = with_field(a, "hunk_header"@, JsonModel::Text(c.hunk_header));
    let a = with_field(a, "patch_fingerprint"@, JsonModel::Text(c.patch_fingerprint));
    let a = with_field(a, "match_status"@, JsonModel::Text(c.match_status.label_text()));
    let a = with_field(a, "start_line"@, JsonModel::Unsigned(c.start_line as u64));
    let a = with_field(a, "end_line"@, JsonModel::Unsigned(c.end_line as u64));
    let a = with_field(
        a,
        "stable_line_ids"@,
        JsonModel::List(with_first_id(list_or_empty(a, "stable_line_ids"@), c.stable_line_id)),
    );
    let a = with_field(a, "context_before"@, text_list(c.context_before));
    with_field(a, "context_after"@, text_list(c.context_after))
}

/// The fields of a comment but for its anchor, set over those that it was read
/// with.
pub open spec fn comment_fields(c: CommentModel) -> Seq<(Seq<char>, JsonModel)> {
    let f = with_field(c.original, "comment_id"@, JsonModel::Text(c.comment_id));
    let f = with_field(f, "repository_id"@, JsonModel::Text(c.repository_id));
    let f = with_field(f, "review_target_id"@, JsonModel::Text(c.review_target_id));
    let f = with_field(f, "file_path"@, JsonModel::Text(c.file_path));
    let f = with_field(f, "body"@, JsonModel::Text(c.body));
    let f = with_field(f, "author"@, JsonModel::Text(c.author));
    let f = with_field(f, "created_at"@, JsonModel::Text(c.created_at));
    with_field(f, "updated_at"@, JsonModel::Text(c.updated_at))
}

/// The anchor that a comment was read with.
pub open spec fn original_anchor(f: Seq<(Seq<char>, JsonModel)>) -> Seq<(Seq<char>, JsonModel)> {
    match found(f, "anchor"@) {
        Some(JsonModel::Object(a)) => a,
        _ => seq![],
    }
}

/// A comment as a document entry.
pub open spec fn comment_json(c: CommentModel) -> JsonModel {
    let f = comment_fields(c);
    JsonModel::Object(
        with_field(f, "anchor"@, JsonModel::Object(anchor_fields(c, original_anchor(f)))),
    )
}

/// The review state that a document entry describes.
pub open spec fn state_of_json(v: JsonModel) -> StateModel {
    StateModel {
        repository_id: text_or(v, "repository_id"@, ""@),
        review_target_id: text_or(v, "review_target_id"@, ""@),
        file_path: text_or(v, "file_path"@, ""@),
        status: text_or(v, "status"@, "unreviewed"@),
        patch_fingerprint: text_or(v, "patch_fingerprint"@, ""@),
        updated_at: text_or(v, "updated_at"@, ""@),
        original: fields_of(v),
    }
}

/// A review state as a document entry.
pub open spec fn state_json(s: StateModel) -> JsonModel {
    let f = with_field(s.original, "repository_id"@, JsonModel::Text(s.repository_id));
    let f = with_field(f, "review_target_id"@, JsonModel::Text(s.review_target_id));
    let f = with_field(f, "file_path"@, JsonModel::Text(s.file_path));
    let f = with_field(f, "status"@, JsonModel::Text(s.status));
    let f = with_field(f, "patch_fingerprint"@, JsonModel::Text(s.patch_fingerprint));
    JsonModel::Object(with_field(f, "updated_at"@, JsonModel::Text(s.updated_at)))
}

fn string(v: &Json, key: &str, default: &str) -> (r: String)
    ensures
        r@ == text_or(model(*v), key@, default@),
{
    match get_field(v, key) {
        Some(Json::Text(s)) => s.clone(),
        _ => default.to_owned(),
    }
}

fn number(v: &Json, key: &str) -> (r: u32)
    ensures
        r == number_or_zero(model(*v), key@),
{
    match get_field(v, key) {
        Some(Json::Unsigned(n)) => if *n <= 0xffff_ffff {
            *n as u32
        } else {
            0
        },
        Some(Json::Signed(n)) => if 0 <= *n && *n <= 0xffff_ffff {
            *n as u32
        } else {
            0
        },
        Some(Json::Float(n)) => whole_number(n),
        _ => 0,
    }
}

fn strings(v: &Json, key: &str) -> (r: Vec<String>)
    ensures
        texts(r@) == texts_or_empty(model(*v), key@),
{
    broadcast use lemma_models;

    let mut out: Vec<String> = Vec::new();
    if let Some(Json::List(list)) = get_field(v, key) {
        let ghost all = models(list@);
        let mut i: usize = 0;
        proof {
            lemma_models(list@);
        }
        assert(texts(out@) =~= only_texts(all.take(0)));
        while i < list.len()
            invariant
                all.len() == list@.len(),
                forall|k: int| 0 <= k < list@.len() ==> #[trigger] all[k] == model(list@[k]),
                i <= list@.len(),
                texts(out@) == only_texts(all.take(i as int)),
            decreases list@.len() - i,
        {
            let ghost now = all.take(i + 1);
            let ghost before = texts(out@);
            assert(now.drop_last() =~= all.take(i as int));
            assert(now.last() == model(list@[i as int]));
            if let Json::Text(s) = &list[i] {
                out.push(s.clone());
                assert(texts(out@) =~= before.push(s@));
            }
            i += 1;
        }
        assert(all.take(i as int) =~= all);
    } else {
        assert(texts(out@) =~= Seq::<Seq<char>>::empty());
    }
    out
}

fn set_text(f: &mut Vec<Field>, key: &str, value: &str)
    ensures
        field_models(final(f)@) == with_field(
            field_models(old(f)@),
            key@,
            JsonModel::Text(value@),
        ),
{
    set_field(f, key, Json::Text(value.to_owned()));
}

fn list_of_texts(v: &Vec<String>) -> (r: Json)
    ensures
        model(r) == text_list(texts(v@)),
{
    broadcast use lemma_models;

    let mut out: Vec<Json> = Vec::new();
    let mut i: usize = 0;
    while i < v.len()
        invariant
            i <= v@.len(),
            out@.len() == i,
            forall|k: int|
                0 <= k < i ==> model(#[trigger] out@[k]) == JsonModel::Text(v@[k]@),
        decreases v@.len() - i,
    {
        out.push(Json::Text(v[i].clone()));
        i += 1;
    }
    assert(models(out@) =~= texts(v@).map_values(|s: Seq<char>| JsonModel::Text(s)));
    Json::List(out)
}

impl Comment {
    /// Read a comment from a document entry.
    pub fn from_json(v: &Json) -> (r: Comment)
        ensures
            r@ == comment_of(model(*v)),
    {
        broadcast use lemma_models;

        let anchor = get_field(v, "anchor");
        let a: &Json = match anchor {
            Some(x) => x,
            None => v,
        };
        let mut stable_line_id = String::new();
        let mut status = MatchStatus::Exact;
        proof {
            reveal_strlit("");
            assert(stable_line_id@ =~= ""@);
            reveal_strlit("exact");
            reveal_strlit("relocated");
            reveal_strlit("stale");
            reveal_strlit("missing");
            assert("exact"@.len() == 5 && "exact"@[0] == 'e' && "stale"@[0] == 's');
        }
        if let Some(x) = anchor {
            status = MatchStatus::parse(string(x, "match_status", "exact").as_str());
            if let Some(Json::List(ids)) = get_field(x, "stable_line_ids") {
                if ids.len() > 0 {
                    assert(models(ids@)[0] == model(ids@[0]));
                    if let Json::Text(s) = &ids[0] {
                        stable_line_id = s.clone();
                    }
                }
            }
        }
        let original: Vec<Field> = match v {
            Json::Object(f) => copy_fields(f),
            _ => Vec::new(),
        };
        assert(field_models(original@) =~= fields_of(model(*v)));
        Comment {
            comment_id: string(v, "comment_id", ""),
            repository_id: string(v, "repository_id", ""),
            review_target_id: string(v, "review_target_id", ""),
            file_path: string(v, "file_path", ""),
            side: string(a, "side", "new"),
            start_line: number(a, "start_line"),
            end_line: number(a, "end_line"),
            stable_line_id,
            hunk_header: string(a, "hunk_header", ""),
            context_before: strings(a, "context_before"),
            context_after: strings(a, "context_after"),
            patch_fingerprint: string(a, "patch_fingerprint", ""),
            match_status: status,
            body: string(v, "body", ""),
            author: string(v, "author", ""),
            created_at: string(v, "created_at", ""),
            updated_at: string(v, "updated_at", ""),
            original,
        }
    }

    /// The comment as a document entry.
    pub fn to_json(&self) -> (r: Json)
        ensures
            model(r) == comment_json(self@),
    {
        broadcast use lemma_models;

        let mut f = copy_fields(&self.original);
        set_text(&mut f, "comment_id", self.comment_id.as_str());
        set_text(&mut f, "repository_id", self.repository_id.as_str());
        set_text(&mut f, "review_target_id", self.review_target_id.as_str());
        set_text(&mut f, "file_path", self.file_path.as_str());
        set_text(&mut f, "body", self.body.as_str());
        set_text(&mut f, "author", self.author.as_str());
        set_text(&mut f, "created_at", self.created_at.as_str());
        set_text(&mut f, "updated_at", self.updated_at.as_str());
        let ghost base = field_models(f@);
        assert(base == comment_fields(self@));
        let mut a: Vec<Field> = match find_field(&f, "anchor") {
            Some(Json::Object(x)) => copy_fields(x),
            _ => Vec::new(),
        };
        assert(field_models(a@) =~= original_anchor(base));
        set_text(&mut a, "side", self.side.as_str());
        set_text(&mut a, "hunk_header", self.hunk_header.as_str());
        set_text(&mut a, "patch_fingerprint", self.patch_fingerprint.as_str());
        set_text(&mut a, "match_status", self.match_status.label());
        set_field(&mut a, "start_line", Json::Unsigned(self.start_line as u64));
        set_field(&mut a, "end_line", Json::Unsigned(self.end_line as u64));
        let ghost a1 = field_models(a@);
        let mut ids: Vec<Json> = match find_field(&a, "stable_line_ids") {
            Some(Json::List(x)) => copy_list(x),
            _ => Vec::new(),
        };
        let ghost ids0 = models(ids@);
        assert(ids0 =~= list_or_empty(a1, "stable_line_ids"@));
        if ids.len() == 0 {
            ids.push(Json::Text(self.stable_line_id.clone()));
        } else {
            ids[0] = Json::Text(self.stable_line_id.clone());
        }
        assert(models(ids@) =~= with_first_id(ids0, self.stable_line_id@));
        set_field(&mut a, "stable_line_ids", Json::List(ids));
        set_field(&mut a, "context_before", list_of_texts(&self.context_before));
        set_field(&mut a, "context_after", list_of_texts(&self.context_after));
        set_field(&mut f, "anchor", Json::Object(a));
        Json::Object(f)
    }

    fn copy(&self) -> (r: Comment)
        ensures
            r@ == self@,
    {
        Comment {
            comment_id: self.comment_id.clone(),
            repository_id: self.repository_id.clone(),
            review_target_id: self.review_target_id.clone(),
            file_path: self.file_path.clone(),
            side: self.side.clone(),
            start_line: self.start_line,
            end_line: self.end_line,
            stable_line_id: self.stable_line_id.clone(),
            hunk_header: self.hunk_header.clone(),
            context_before: copy_strings(self.context_before.as_slice()),
            context_after: copy_strings(self.context_after.as_slice()),
            patch_fingerprint: self.patch_fingerprint.clone(),
            match_status: self.match_status,
            body: self.body.clone(),
            author: self.author.clone(),
            created_at: self.created_at.clone(),
            updated_at: self.updated_at.clone(),
            original: copy_fields(&self.original),
        }
    }
}

impl ReviewState {
    /// Read a review state from a document entry.
    pub fn from_json(v: &Json) -> (r: ReviewState)
        ensures
            r@ == state_of_json(model(*v)),
    {
        let original: Vec<Field> = match v {
            Json::Object(f) => copy_fields(f),
            _ => Vec::new(),
        };
        assert(field_models(original@) =~= fields_of(model(*v)));
        ReviewState {
            repository_id: string(v, "repository_id", ""),
            review_target_id: string(v, "review_target_id", ""),
            file_path: string(v, "file_path", ""),
            status: string(v, "status", "unreviewed"),
            patch_fingerprint: string(v, "patch_fingerprint", ""),
            updated_at: string(v, "updated_at", ""),
            original,
        }
    }

    /// The review state as a document entry.
    pub fn to_json(&self) -> (r: Json)
        ensures
            model(r) == state_json(self@),
    {
        let mut f = copy_fields(&self.original);
        set_text(&mut f, "repository_id", self.repository_id.as_str());
        set_text(&mut f, "review_target_id", self.review_target_id.as_str());
        set_text(&mut f, "file_path", self.file_path.as_str());
        set_text(&mut f, "status", self.status.as_str());
        set_text(&mut f, "patch_fingerprint", self.patch_fingerprint.as_str());
        set_text(&mut f, "updated_at", self.updated_at.as_str());
        Json::Object(f)
    }

    fn copy(&self) -> (r: ReviewState)
        ensures
            r@ == self@,
    {
        ReviewState {
            repository_id: self.repository_id.clone(),
            review_target_id: self.review_target_id.clone(),
            file_path: self.file_path.clone(),
            status: self.status.clone(),
            patch_fingerprint: self.patch_fingerprint.clone(),
            updated_at: self.updated_at.clone(),
            original: copy_fields(&self.original),
        }
    }
}

// ---------------------------------------------------------------------------
// What is written reads as it was
// ---------------------------------------------------------------------------

proof fn lemma_only_texts(v: Seq<Seq<char>>)
    ensures
        only_texts(v.map_values(|s: Seq<char>| JsonModel::Text(s))) == v,
    decreases v.len(),
{
    let m = v.map_values(|s: Seq<char>| JsonModel::Text(s));
    if v.len() > 0 {
        lemma_only_texts(v.drop_last());
        assert(m.drop_last() =~= v.drop_last().map_values(|s: Seq<char>| JsonModel::Text(s)));
        assert(only_texts(m) =~= v);
    } else {
        assert(only_texts(m) =~= v);
    }
}

proof fn lemma_status_labels(s: MatchStatus)
    ensures
        MatchStatus::of_label(s.label_text()) == s,
{
    reveal_strlit("exact");
    reveal_strlit("relocated");
    reveal_strlit("stale");
    reveal_strlit("missing");
    assert("exact"@[0] == 'e' && "exact"@.len() == 5);
    assert("stale"@[0] == 's' && "stale"@.len() == 5);
    assert("relocated"@.len() == 9);
    assert("missing"@.len() == 7);
}

/// The lengths of the field names, and what tells those of one length apart.
proof fn lemma_field_names()
    ensures
        "comment_id"@.len() == 10,
        "repository_id"@.len() == 13,
        "review_target_id"@.len() == 16,
        "file_path"@.len() == 9,
        "body"@.len() == 4,
        "author"@.len() == 6,
        "created_at"@.len() == 10,
        "updated_at"@.len() == 10,
        "anchor"@.len() == 6,
        "side"@.len() == 4,
        "hunk_header"@.len() == 11,
        "patch_fingerprint"@.len() == 17,
        "match_status"@.len() == 12,
        "start_line"@.len() == 10,
        "end_line"@.len() == 8,
        "stable_line_ids"@.len() == 15,
        "context_before"@.len() == 14,
        "context_after"@.len() == 13,
        "status"@.len() == 6,
        "comment_id"@[1] == 'o',
        "created_at"@[1] == 'r',
        "updated_at"@[1] == 'p',
        "author"@[1] == 'u',
        "anchor"@[1] == 'n',
{
    reveal_strlit("comment_id");
    reveal_strlit("repository_id");
    reveal_strlit("review_target_id");
    reveal_strlit("file_path");
    reveal_strlit("body");
    reveal_strlit("author");
    reveal_strlit("created_at");
    reveal_strlit("updated_at");
    reveal_strlit("anchor");
    reveal_strlit("side");
    reveal_strlit("hunk_header");
    reveal_strlit("patch_fingerprint");
    reveal_strlit("match_status");
    reveal_strlit("start_line");
    reveal_strlit("end_line");
    reveal_strlit("stable_line_ids");
    reveal_strlit("context_before");
    reveal_strlit("context_after");
    reveal_strlit("status");
}

/// A comment that is written and read again is the same comment, whatever
/// fields it was read with before.
pub proof fn law_comment_round_trip(c: CommentModel)
    ensures
        comment_of(comment_json(c)) == (CommentModel {
            original: fields_of(comment_json(c)),
            ..c
        }),
{
    broadcast use law_set_then_get;

    lemma_only_texts(c.context_before);
    lemma_only_texts(c.context_after);
    lemma_status_labels(c.match_status);
    lemma_field_names();
    let v = comment_json(c);
    let a = anchor_fields(c, original_anchor(comment_fields(c)));
    assert(get(v, "anchor"@) == Some(JsonModel::Object(a)));
    let ids = with_first_id(
        list_or_empty(
            with_field(
                with_field(
                    with_field(
                        with_field(
                            with_field(
                                with_field(
                                    original_anchor(comment_fields(c)),
                                    "side"@,
                                    JsonModel::Text(c.side),
                                ),
                                "hunk_header"@,
                                JsonModel::Text(c.hunk_header),
                            ),
                            "patch_fingerprint"@,
                            JsonModel::Text(c.patch_fingerprint),
                        ),
                        "match_status"@,
                        JsonModel::Text(c.match_status.label_text()),
                    ),
                    "start_line"@,
                    JsonModel::Unsigned(c.start_line as u64),
                ),
                "end_line"@,
                JsonModel::Unsigned(c.end_line as u64),
            ),
            "stable_line_ids"@,
        ),
        c.stable_line_id,
    );
    assert(found(a, "stable_line_ids"@) == Some(JsonModel::List(ids)));
    assert(ids[0] == JsonModel::Text(c.stable_line_id));
    assert(comment_of(v).stable_line_id == c.stable_line_id);
}

/// Writing a comment keeps the fields that it was read with and that this
/// program does not know.
pub proof fn law_comment_keeps_extensions(c: CommentModel, key: Seq<char>)
    requires
        key != "comment_id"@,
        key != "repository_id"@,
        key != "review_target_id"@,
        key != "file_path"@,
        key != "body"@,
        key != "author"@,
        key != "created_at"@,
        key != "updated_at"@,
        key != "anchor"@,
    ensures
        get(comment_json(c), key) == found(c.original, key),
{
    broadcast use law_set_then_get;

}

/// Writing a comment keeps the unknown fields of its anchor as well, and all
/// identities in it but the first.
pub proof fn law_anchor_keeps_extensions(
    c: CommentModel,
    a: Seq<(Seq<char>, JsonModel)>,
    key: Seq<char>,
    k: int,
)
    requires
        key != "side"@,
        key != "hunk_header"@,
        key != "patch_fingerprint"@,
        key != "match_status"@,
        key != "start_line"@,
        key != "end_line"@,
        key != "stable_line_ids"@,
        key != "context_before"@,
        key != "context_after"@,
        1 <= k < list_or_empty(a, "stable_line_ids"@).len(),
    ensures
        found(anchor_fields(c, a), key) == found(a, key),
        list_or_empty(anchor_fields(c, a), "stable_line_ids"@).len() == list_or_empty(
            a,
            "stable_line_ids"@,
        ).len(),
        list_or_empty(anchor_fields(c, a), "stable_line_ids"@)[k] == list_or_empty(
            a,
            "stable_line_ids"@,
        )[k],
{
    broadcast use law_set_then_get;

    lemma_field_names();
}

/// A review state that is written and read again is the same state.
pub proof fn law_state_round_trip(s: StateModel)
    ensures
        state_of_json(state_json(s)) == (StateModel { original: fields_of(state_json(s)), ..s }),
{
    broadcast use law_set_then_get;

    lemma_field_names();
}

// ---------------------------------------------------------------------------
// Documents
// ---------------------------------------------------------------------------

/// Whether a value is a document that this program may work on: an object of
/// schema version one, or without a version, whose entries are objects.
/// Others are refused rather than overwritten.
pub open spec fn valid_document(root: JsonModel, key: Seq<char>) -> bool {
    &&& root is Object
    &&& (get(root, "schema_version"@) matches Some(v) ==> v == JsonModel::Unsigned(1))
    &&& (get(root, key) matches Some(v) ==> v is List && forall|k: int|
        0 <= k < v->List_0.len() ==> (#[trigger] v->List_0[k]) is Object)
}

/// The document of a store that has none yet.
pub open spec fn empty_document() -> JsonModel {
    JsonModel::Object(seq![("schema_version"@, JsonModel::Unsigned(1))])
}

/// A document, or the empty one.
pub open spec fn document_or_empty(root: Option<Json>) -> JsonModel {
    match root {
        Some(j) => model(j),
        None => empty_document(),
    }
}

/// Longer files are refused.
pub const MAX_DOCUMENT_BYTES: usize = 104_857_600;

/// The document that a file holds; nothing where it is too long or malformed.
pub open spec fn read_document(bytes: Option<Vec<u8>>) -> Option<JsonModel> {
    match bytes {
        Some(b) => if b@.len() > MAX_DOCUMENT_BYTES {
            None
        } else {
            parsed_json(b@)
        },
        None => Some(empty_document()),
    }
}

/// The document that a file holds.
fn load_document(bytes: Option<Vec<u8>>) -> (r: Result<Option<Json>, Error>)
    ensures
        match r {
            Ok(d) => read_document(bytes) == Some(document_or_empty(d)),
            Err(e) => read_document(bytes) is None && e == Error::StorageCorrupted,
        },
{
    match bytes {
        Some(b) => {
            if b.len() > MAX_DOCUMENT_BYTES {
                return Err(Error::StorageCorrupted);
            }
            match parse_json(b.as_slice()) {
                Some(j) => Ok(Some(j)),
                None => Err(Error::StorageCorrupted),
            }
        },
        None => Ok(None),
    }
}

/// The comments in a document.
pub open spec fn read_comments(root: JsonModel) -> Seq<CommentModel> {
    list_or_empty(fields_of(root), "comments"@).map_values(|v: JsonModel| comment_of(v))
}

/// The review states in a document.
pub open spec fn read_states(root: JsonModel) -> Seq<StateModel> {
    list_or_empty(fields_of(root), "states"@).map_values(|v: JsonModel| state_of_json(v))
}

/// The document to write for a list of entries, over the fields of the
/// document that was read.
pub open spec fn document(
    root: Seq<(Seq<char>, JsonModel)>,
    key: Seq<char>,
    list: Seq<JsonModel>,
) -> JsonModel {
    JsonModel::Object(
        with_field(
            with_field(root, "schema_version"@, JsonModel::Unsigned(1)),
            key,
            JsonModel::List(list),
        ),
    )
}

/// The document to write for comments.
pub open spec fn comments_document(s: StoreModel, v: Seq<CommentModel>) -> JsonModel {
    document(s.comments_root, "comments"@, v.map_values(|c: CommentModel| comment_json(c)))
}

/// The document to write for review states.
pub open spec fn states_document(s: StoreModel, v: Seq<StateModel>) -> JsonModel {
    document(s.states_root, "states"@, v.map_values(|x: StateModel| state_json(x)))
}

/// A document that was written is accepted when it is read, and has the
/// comments that were written, but for the fields behind them.
pub proof fn law_comments_document(s: StoreModel, v: Seq<CommentModel>)
    ensures
        valid_document(comments_document(s, v), "comments"@),
        read_comments(comments_document(s, v)).len() == v.len(),
        forall|k: int|
            0 <= k < v.len() ==> (#[trigger] read_comments(comments_document(s, v))[k]) == (
            CommentModel { original: fields_of(comment_json(v[k])), ..v[k] }),
{
    broadcast use law_set_then_get;

    reveal_strlit("schema_version");
    reveal_strlit("comments");
    assert("schema_version"@.len() == 14 && "comments"@.len() == 8);
    let list = v.map_values(|c: CommentModel| comment_json(c));
    let root = comments_document(s, v);
    assert(get(root, "comments"@) == Some(JsonModel::List(list)));
    assert forall|k: int| 0 <= k < v.len() implies (#[trigger] read_comments(root)[k]) == (
    CommentModel { original: fields_of(comment_json(v[k])), ..v[k] }) by {
        law_comment_round_trip(v[k]);
        assert(list[k] == comment_json(v[k]));
    }
    assert forall|k: int| 0 <= k < list.len() implies (#[trigger] list[k]) is Object by {
        assert(list[k] == comment_json(v[k]));
    }
}

/// The same holds of review states.
pub proof fn law_states_document(s: StoreModel, v: Seq<StateModel>)
    ensures
        valid_document(states_document(s, v), "states"@),
        read_states(states_document(s, v)).len() == v.len(),
        forall|k: int|
            0 <= k < v.len() ==> (#[trigger] read_states(states_document(s, v))[k]) == (
            StateModel { original: fields_of(state_json(v[k])), ..v[k] }),
{
    broadcast use law_set_then_get;

    reveal_strlit("schema_version");
    reveal_strlit("states");
    assert("schema_version"@.len() == 14 && "states"@.len() == 6);
    let list = v.map_values(|x: StateModel| state_json(x));
    let root = states_document(s, v);
    assert(get(root, "states"@) == Some(JsonModel::List(list)));
    assert forall|k: int| 0 <= k < v.len() implies (#[trigger] read_states(root)[k]) == (
    StateModel { original: fields_of(state_json(v[k])), ..v[k] }) by {
        law_state_round_trip(v[k]);
        assert(list[k] == state_json(v[k]));
    }
    assert forall|k: int| 0 <= k < list.len() implies (#[trigger] list[k]) is Object by {
        assert(list[k] == state_json(v[k]));
    }
}

/// Setting a field changes the one of that name, or adds one.
proof fn lemma_with_field(f: Seq<(Seq<char>, JsonModel)>, name: Seq<char>, value: JsonModel)
    ensures
        (with_field(f, name, value) == f.push((name, value)) && forall|i: int|
            0 <= i < f.len() ==> (#[trigger] f[i]).0 != name) || exists|i: int|
            0 <= i < f.len() && (#[trigger] f[i]).0 == name && with_field(f, name, value)
                == f.update(i, (name, value)),
    decreases f.len(),
{
    if f.len() == 0 {
        assert(with_field(f, name, value) =~= f.push((name, value)));
    } else if f[0].0 == name {
        assert(with_field(f, name, value) =~= f.update(0, (name, value)));
    } else {
        let t = f.skip(1);
        lemma_with_field(t, name, value);
        if with_field(t, name, value) == t.push((name, value)) && forall|i: int|
            0 <= i < t.len() ==> (#[trigger] t[i]).0 != name {
            assert(with_field(f, name, value) =~= f.push((name, value)));
            assert forall|i: int| 0 <= i < f.len() implies (#[trigger] f[i]).0 != name by {
                if i > 0 {
                    assert(t[i - 1] == f[i]);
                }
            }
        } else {
            let i = choose|i: int|
                0 <= i < t.len() && (#[trigger] t[i]).0 == name && with_field(t, name, value)
                    == t.update(i, (name, value));
            assert(f[i + 1] == t[i]);
            assert(with_field(f, name, value) =~= f.update(i + 1, (name, value)));
        }
    }
}

broadcast proof fn lemma_set_readable(
    f: Seq<(Seq<char>, JsonModel)>,
    name: Seq<char>,
    value: JsonModel,
    depth: nat,
)
    requires
        fields_readable(f, depth),
        readable(value, depth),
    ensures
        #[trigger] fields_readable(with_field(f, name, value), depth),
{
    lemma_with_field(f, name, value);
}

proof fn lemma_found_readable(f: Seq<(Seq<char>, JsonModel)>, name: Seq<char>, depth: nat)
    requires
        fields_readable(f, depth),
    ensures
        found(f, name) matches Some(v) ==> readable(v, depth),
    decreases f.len(),
{
    if f.len() > 0 {
        let t = f.skip(1);
        assert(readable(f[0].1, depth));
        assert(fields_readable(t, depth)) by {
            assert forall|i: int, k: int| 0 <= i < k < t.len() implies (#[trigger] t[i]).0 != (
            #[trigger] t[k]).0 by {
                assert(t[i] == f[i + 1] && t[k] == f[k + 1]);
            }
            assert forall|k: int| 0 <= k < t.len() implies readable((#[trigger] t[k]).1, depth) by {
                assert(t[k] == f[k + 1]);
            }
        }
        lemma_found_readable(t, name, depth);
    }
}

broadcast proof fn lemma_text_readable(s: Seq<char>, depth: nat)
    ensures
        #[trigger] readable(JsonModel::Text(s), depth),
{
}

broadcast proof fn lemma_number_readable(n: u64, depth: nat)
    ensures
        #[trigger] readable(JsonModel::Unsigned(n), depth),
{
}

proof fn lemma_list_readable(v: Seq<JsonModel>, depth: nat)
    requires
        forall|k: int| 0 <= k < v.len() ==> readable(#[trigger] v[k], depth),
    ensures
        readable(JsonModel::List(v), depth + 1),
{
}

proof fn lemma_object_readable(f: Seq<(Seq<char>, JsonModel)>, depth: nat)
    requires
        fields_readable(f, depth),
    ensures
        readable(JsonModel::Object(f), depth + 1),
{
}

proof fn lemma_texts_readable(v: Seq<Seq<char>>, depth: nat)
    requires
        depth > 0,
    ensures
        readable(text_list(v), depth),
{
    broadcast use lemma_text_readable;

    lemma_list_readable(v.map_values(|s: Seq<char>| JsonModel::Text(s)), (depth - 1) as nat);
}

/// An anchor that is set over one that reads back reads back.
proof fn lemma_anchor_readable(c: CommentModel, a: Seq<(Seq<char>, JsonModel)>, depth: nat)
    requires
        fields_readable(a, depth),
        depth > 0,
    ensures
        fields_readable(anchor_fields(c, a), depth),
{
    let a = with_field(a, "side"@, JsonModel::Text(c.side));
    let a = with_field(a, "hunk_header"@, JsonModel::Text(c.hunk_header));
    let a = with_field(a, "patch_fingerprint"@, JsonModel::Text(c.patch_fingerprint));
    let a = with_field(a, "match_status"@, JsonModel::Text(c.match_status.label_text()));
    let a = with_field(a, "start_line"@, JsonModel::Unsigned(c.start_line as u64));
    let a = with_field(a, "end_line"@, JsonModel::Unsigned(c.end_line as u64));
    broadcast use {lemma_set_readable, lemma_text_readable, lemma_number_readable};

    assert(fields_readable(a, depth));
    lemma_found_readable(a, "stable_line_ids"@, depth);
    let before = list_or_empty(a, "stable_line_ids"@);
    let ids = with_first_id(before, c.stable_line_id);
    assert forall|k: int| 0 <= k < ids.len() implies readable(
        #[trigger] ids[k],
        (depth - 1) as nat,
    ) by {
        if k > 0 {
            assert(ids[k] == before[k]);
        }
    }
    lemma_list_readable(ids, (depth - 1) as nat);
    lemma_texts_readable(c.context_before, depth);
    lemma_texts_readable(c.context_after, depth);
}

/// A comment reads back where the fields behind it do.
proof fn lemma_comment_readable(c: CommentModel, depth: nat)
    requires
        fields_readable(c.original, depth),
        depth > 1,
    ensures
        readable(comment_json(c), depth + 1),
{
    broadcast use {lemma_set_readable, lemma_text_readable};

    let f = comment_fields(c);
    assert(fields_readable(f, depth));
    lemma_found_readable(f, "anchor"@, depth);
    let a = original_anchor(f);
    assert(fields_readable(a, (depth - 1) as nat));
    lemma_anchor_readable(c, a, (depth - 1) as nat);
    let anchor = anchor_fields(c, a);
    lemma_object_readable(anchor, (depth - 1) as nat);
    lemma_object_readable(with_field(f, "anchor"@, JsonModel::Object(anchor)), depth);
}

/// A document of comments reads back from its text where the fields behind the
/// comments, and those of the document, do; a new comment has none behind it.
pub proof fn law_comments_read_back(s: StoreModel, v: Seq<CommentModel>)
    requires
        fields_readable(s.comments_root, (MAX_NESTING - 1) as nat),
        forall|k: int|
            0 <= k < v.len() ==> fields_readable(
                (#[trigger] v[k]).original,
                (MAX_NESTING - 3) as nat,
            ),
    ensures
        readable(comments_document(s, v), MAX_NESTING as nat),
{
    broadcast use {lemma_set_readable, lemma_number_readable};

    let list = v.map_values(|c: CommentModel| comment_json(c));
    assert forall|k: int| 0 <= k < list.len() implies readable(
        #[trigger] list[k],
        (MAX_NESTING - 2) as nat,
    ) by {
        lemma_comment_readable(v[k], (MAX_NESTING - 3) as nat);
    }
    lemma_list_readable(list, (MAX_NESTING - 2) as nat);
    lemma_object_readable(
        fields_of(document(s.comments_root, "comments"@, list)),
        (MAX_NESTING - 1) as nat,
    );
}

/// The same holds of review states.
pub proof fn law_states_read_back(s: StoreModel, v: Seq<StateModel>)
    requires
        fields_readable(s.states_root, (MAX_NESTING - 1) as nat),
        forall|k: int|
            0 <= k < v.len() ==> fields_readable(
                (#[trigger] v[k]).original,
                (MAX_NESTING - 3) as nat,
            ),
    ensures
        readable(states_document(s, v), MAX_NESTING as nat),
{
    broadcast use {lemma_set_readable, lemma_text_readable, lemma_number_readable};

    let list = v.map_values(|x: StateModel| state_json(x));
    assert forall|k: int| 0 <= k < list.len() implies readable(
        #[trigger] list[k],
        (MAX_NESTING - 2) as nat,
    ) by {
        lemma_object_readable(fields_of(state_json(v[k])), (MAX_NESTING - 3) as nat);
    }
    lemma_list_readable(list, (MAX_NESTING - 2) as nat);
    lemma_object_readable(
        fields_of(document(s.states_root, "states"@, list)),
        (MAX_NESTING - 1) as nat,
    );
}

/// Accept a document, or refuse it.
fn check_document(root: Option<Json>, key: &str) -> (r: Result<Vec<Field>, Error>)
    ensures
        match r {
            Ok(f) => valid_document(document_or_empty(root), key@) && JsonModel::Object(
                field_models(f@),
            ) == document_or_empty(root),
            Err(e) => !valid_document(document_or_empty(root), key@) && e
                == Error::StorageCorrupted,
        },
{
    broadcast use lemma_models;

    let f: Vec<Field> = match root {
        None => {
            let mut f: Vec<Field> = Vec::new();
            set_field(&mut f, "schema_version", Json::Unsigned(1));
            assert(field_models(f@) =~= seq![("schema_version"@, JsonModel::Unsigned(1))]);
            f
        },
        Some(Json::Object(f)) => f,
        Some(_) => {
            return Err(Error::StorageCorrupted);
        },
    };
    let ghost whole = document_or_empty(root);
    assert(whole == JsonModel::Object(field_models(f@)));
    match find_field(&f, "schema_version") {
        Some(Json::Unsigned(n)) => {
            if *n != 1 {
                return Err(Error::StorageCorrupted);
            }
        },
        Some(_) => {
            return Err(Error::StorageCorrupted);
        },
        None => {},
    }
    match find_field(&f, key) {
        Some(Json::List(v)) => {
            proof {
                lemma_models(v@);
            }
            let mut i: usize = 0;
            while i < v.len()
                invariant
                    i <= v@.len(),
                    models(v@).len() == v@.len(),
                    forall|k: int| 0 <= k < v@.len() ==> #[trigger] models(v@)[k] == model(v@[k]),
                    get(whole, key@) == Some(JsonModel::List(models(v@))),
                    whole == document_or_empty(root),
                    forall|k: int| 0 <= k < i ==> (#[trigger] models(v@)[k]) is Object,
                decreases v@.len() - i,
            {
                assert(models(v@)[i as int] == model(v@[i as int]));
                match &v[i] {
                    Json::Object(_) => {},
                    _ => {
                        assert(!(models(v@)[i as int] is Object));
                        return Err(Error::StorageCorrupted);
                    },
                }
                i += 1;
            }
        },
        Some(_) => {
            return Err(Error::StorageCorrupted);
        },
        None => {},
    }
    Ok(f)
}

/// Review states that would take the place of a store's, and the document that
/// has to be written first.
#[derive(Debug)]
pub struct StatesChange {
    pub states: Vec<ReviewState>,
    pub document: Json,
}

/// Comments that would take the place of a store's, and the document that has
/// to be written first.
#[derive(Debug)]
pub struct CommentsChange {
    pub comments: Vec<Comment>,
    pub document: Json,
}

/// What the first entry for a file of a target becomes, or a new one at the
/// end.
pub open spec fn with_reviewed(
    states: Seq<StateModel>,
    repository_id: Seq<char>,
    target_id: Seq<char>,
    file: FileModel,
    status: Seq<char>,
    now: Seq<char>,
) -> Seq<StateModel>
    decreases states.len(),
{
    if states.len() == 0 {
        seq![
            StateModel {
                repository_id,
                review_target_id: target_id,
                file_path: file.path,
                status,
                patch_fingerprint: file.patch_fingerprint,
                updated_at: now,
                original: seq![],
            },
        ]
    } else if states[0].file_path == file.path && states[0].review_target_id == target_id {
        seq![
            StateModel {
                status,
                patch_fingerprint: file.patch_fingerprint,
                updated_at: now,
                ..states[0]
            },
        ] + states.skip(1)
    } else {
        seq![states[0]] + with_reviewed(
            states.skip(1),
            repository_id,
            target_id,
            file,
            status,
            now,
        )
    }
}

/// The label of a review mark.
pub open spec fn review_label(is_reviewed: bool) -> Seq<char> {
    if is_reviewed {
        "reviewed"@
    } else {
        "unreviewed"@
    }
}

/// A file that was marked as reviewed counts as reviewed.
pub proof fn law_marked_is_reviewed(
    states: Seq<StateModel>,
    repository_id: Seq<char>,
    target_id: Seq<char>,
    file: FileModel,
    now: Seq<char>,
)
    ensures
        reviewed(
            with_reviewed(states, repository_id, target_id, file, "reviewed"@, now),
            file.path,
            file.patch_fingerprint,
            target_id,
        ),
    decreases states.len(),
{
    let after = with_reviewed(states, repository_id, target_id, file, "reviewed"@, now);
    if states.len() == 0 || (states[0].file_path == file.path && states[0].review_target_id
        == target_id) {
        assert(after[0].status == "reviewed"@);
    } else {
        let rest = states.skip(1);
        law_marked_is_reviewed(rest, repository_id, target_id, file, now);
        let tail = with_reviewed(rest, repository_id, target_id, file, "reviewed"@, now);
        let k = choose|k: int|
            0 <= k < tail.len() && (#[trigger] tail[k]).file_path == file.path
                && tail[k].review_target_id == target_id && tail[k].status == "reviewed"@
                && tail[k].patch_fingerprint == file.patch_fingerprint;
        assert(after[k + 1] == tail[k]);
    }
}

/// Whether a file of a target has at most one entry.
pub open spec fn single_entry(
    states: Seq<StateModel>,
    file_path: Seq<char>,
    target_id: Seq<char>,
) -> bool {
    forall|i: int, j: int|
        0 <= i < j < states.len() ==> !((#[trigger] states[i]).file_path == file_path
            && states[i].review_target_id == target_id && (#[trigger] states[j]).file_path
            == file_path && states[j].review_target_id == target_id)
}

/// Marking a file leaves every other file, and every other target, as it was.
pub proof fn law_mark_is_local(
    states: Seq<StateModel>,
    repository_id: Seq<char>,
    target_id: Seq<char>,
    file: FileModel,
    status: Seq<char>,
    now: Seq<char>,
    path: Seq<char>,
    fingerprint: Seq<char>,
    other_target: Seq<char>,
)
    requires
        path != file.path || other_target != target_id,
    ensures
        reviewed(
            with_reviewed(states, repository_id, target_id, file, status, now),
            path,
            fingerprint,
            other_target,
        ) == reviewed(states, path, fingerprint, other_target),
    decreases states.len(),
{
    let after = with_reviewed(states, repository_id, target_id, file, status, now);
    if states.len() == 0 {
        assert(!reviewed(states, path, fingerprint, other_target));
        assert(after[0].file_path == file.path && after[0].review_target_id == target_id);
    } else {
        let here = states[0].file_path == file.path && states[0].review_target_id == target_id;
        if !here {
            law_mark_is_local(
                states.skip(1),
                repository_id,
                target_id,
                file,
                status,
                now,
                path,
                fingerprint,
                other_target,
            );
        }
        let tail = if here {
            states.skip(1)
        } else {
            with_reviewed(states.skip(1), repository_id, target_id, file, status, now)
        };
        assert(after.skip(1) =~= tail);
        lemma_reviewed_step(after, path, fingerprint, other_target);
        lemma_reviewed_step(states, path, fingerprint, other_target);
    }
}

proof fn lemma_reviewed_step(
    states: Seq<StateModel>,
    path: Seq<char>,
    fingerprint: Seq<char>,
    target_id: Seq<char>,
)
    requires
        states.len() > 0,
    ensures
        reviewed(states, path, fingerprint, target_id) == ((states[0].file_path == path
            && states[0].review_target_id == target_id && states[0].status == "reviewed"@
            && states[0].patch_fingerprint == fingerprint) || reviewed(
            states.skip(1),
            path,
            fingerprint,
            target_id,
        )),
{
    let t = states.skip(1);
    if reviewed(states, path, fingerprint, target_id) {
        let k = choose|k: int|
            0 <= k < states.len() && (#[trigger] states[k]).file_path == path
                && states[k].review_target_id == target_id && states[k].status == "reviewed"@
                && states[k].patch_fingerprint == fingerprint;
        if k > 0 {
            assert(t[k - 1] == states[k]);
        }
    }
    if reviewed(t, path, fingerprint, target_id) {
        let k = choose|k: int|
            0 <= k < t.len() && (#[trigger] t[k]).file_path == path && t[k].review_target_id
                == target_id && t[k].status == "reviewed"@ && t[k].patch_fingerprint
                == fingerprint;
        assert(states[k + 1] == t[k]);
    }
}

/// Once a file with at most one entry has been marked, it counts as reviewed
/// just where the mark says so and the patch is the one that was marked: a
/// patch that has changed since is unreviewed.
pub proof fn law_mark_decides(
    states: Seq<StateModel>,
    repository_id: Seq<char>,
    target_id: Seq<char>,
    file: FileModel,
    status: Seq<char>,
    now: Seq<char>,
    fingerprint: Seq<char>,
)
    requires
        single_entry(states, file.path, target_id),
    ensures
        reviewed(
            with_reviewed(states, repository_id, target_id, file, status, now),
            file.path,
            fingerprint,
            target_id,
        ) == (status == "reviewed"@ && fingerprint == file.patch_fingerprint),
    decreases states.len(),
{
    let after = with_reviewed(states, repository_id, target_id, file, status, now);
    lemma_reviewed_step(after, file.path, fingerprint, target_id);
    if states.len() == 0 {
        assert(after.skip(1) =~= Seq::<StateModel>::empty());
    } else {
        let t = states.skip(1);
        assert forall|i: int, j: int| 0 <= i < j < t.len() implies !((
        #[trigger] t[i]).file_path == file.path && t[i].review_target_id == target_id && (
        #[trigger] t[j]).file_path == file.path && t[j].review_target_id == target_id) by {
            assert(t[i] == states[i + 1] && t[j] == states[j + 1]);
        }
        if states[0].file_path == file.path && states[0].review_target_id == target_id {
            assert(after.skip(1) =~= t);
            if reviewed(t, file.path, fingerprint, target_id) {
                let k = choose|k: int|
                    0 <= k < t.len() && (#[trigger] t[k]).file_path == file.path
                        && t[k].review_target_id == target_id && t[k].status == "reviewed"@
                        && t[k].patch_fingerprint == fingerprint;
                assert(states[k + 1] == t[k]);
                assert(states[0].file_path == file.path);
            }
        } else {
            law_mark_decides(t, repository_id, target_id, file, status, now, fingerprint);
            assert(after.skip(1) =~= with_reviewed(
                t,
                repository_id,
                target_id,
                file,
                status,
                now,
            ));
        }
    }
}

/// A file whose only entry was marked as unreviewed does not count as
/// reviewed, whatever its patch.
pub proof fn law_unmarked_is_unreviewed(
    states: Seq<StateModel>,
    repository_id: Seq<char>,
    target_id: Seq<char>,
    file: FileModel,
    now: Seq<char>,
    fingerprint: Seq<char>,
)
    requires
        single_entry(states, file.path, target_id),
    ensures
        !reviewed(
            with_reviewed(states, repository_id, target_id, file, "unreviewed"@, now),
            file.path,
            fingerprint,
            target_id,
        ),
{
    reveal_strlit("reviewed");
    reveal_strlit("unreviewed");
    assert("reviewed"@.len() == 8 && "unreviewed"@.len() == 10);
    law_mark_decides(states, repository_id, target_id, file, "unreviewed"@, now, fingerprint);
}

/// The line number that a comment on a line starts at.
pub open spec fn comment_start(l: LineModel) -> u32 {
    if l.kind == DiffLineKind::Delete {
        match l.old_lineno {
            Some(n) => n,
            None => 0,
        }
    } else {
        match l.new_lineno {
            Some(n) => n,
            None => match l.old_lineno {
                Some(n) => n,
                None => 0,
            },
        }
    }
}

/// What identifies a new comment.
pub open spec fn comment_identity(
    repository_id: Seq<char>,
    target_id: Seq<char>,
    file: FileModel,
    start_line: u32,
    end_line: u32,
    now: Seq<char>,
    body: Seq<char>,
) -> Seq<char> {
    repository_id + ":"@ + target_id + ":"@ + file.path + ":"@ + decimal(start_line as nat) + ":"@
        + decimal(end_line as nat) + ":"@ + now + ":"@ + body
}

/// A new comment on a line.
pub open spec fn new_comment(
    repository_id: Seq<char>,
    target_id: Seq<char>,
    file: FileModel,
    line: LineModel,
    hunk_header: Seq<char>,
    end_line: u32,
    body: Seq<char>,
    author: Seq<char>,
    now: Seq<char>,
) -> CommentModel {
    let start_line = comment_start(line);
    CommentModel {
        comment_id: short_id(
            "cmt_"@,
            encode_utf8(
                comment_identity(repository_id, target_id, file, start_line, end_line, now, body),
            ),
        ),
        repository_id,
        review_target_id: target_id,
        file_path: file.path,
        side: if line.kind == DiffLineKind::Delete {
            "old"@
        } else {
            "new"@
        },
        start_line,
        end_line: if end_line == 0 {
            start_line
        } else {
            end_line
        },
        stable_line_id: line.stable_line_id,
        hunk_header,
        context_before: seq![],
        context_after: seq![],
        patch_fingerprint: file.patch_fingerprint,
        match_status: MatchStatus::Exact,
        body,
        author,
        created_at: now,
        updated_at: now,
        original: seq![],
    }
}

/// The first file with a path.
pub open spec fn file_with_path(files: Seq<FileModel>, path: Seq<char>) -> Option<FileModel>
    decreases files.len(),
{
    if files.len() == 0 {
        None
    } else if files[0].path == path {
        Some(files[0])
    } else {
        file_with_path(files.skip(1), path)
    }
}

/// How a comment matches the files of a snapshot; comments of other targets
/// stay as they are.
pub open spec fn refreshed(
    c: CommentModel,
    files: Seq<FileModel>,
    target_id: Seq<char>,
) -> CommentModel {
    if c.review_target_id != target_id {
        c
    } else {
        CommentModel {
            match_status: match file_with_path(files, c.file_path) {
                Some(f) => if f.patch_fingerprint == c.patch_fingerprint {
                    MatchStatus::Exact
                } else {
                    MatchStatus::Stale
                },
                None => MatchStatus::Missing,
            },
            ..c
        }
    }
}

/// The comments before the index `n` that a removal keeps.
pub open spec fn kept_comments(
    v: Seq<CommentModel>,
    remove: spec_fn(CommentModel) -> bool,
    n: int,
) -> Seq<CommentModel>
    decreases n,
{
    if n <= 0 {
        seq![]
    } else if remove(v[n - 1]) {
        kept_comments(v, remove, n - 1)
    } else {
        kept_comments(v, remove, n - 1).push(v[n - 1])
    }
}

/// A removal removes exactly the comments that it counts.
pub proof fn law_removal_count(
    v: Seq<CommentModel>,
    remove: spec_fn(CommentModel) -> bool,
    n: int,
)
    requires
        0 <= n <= v.len(),
    ensures
        kept_comments(v, remove, n).len() + count_comments(v, remove, n) == n,
        forall|k: int|
            0 <= k < kept_comments(v, remove, n).len() ==> !remove(
                #[trigger] kept_comments(v, remove, n)[k],
            ),
    decreases n,
{
    if n > 0 {
        law_removal_count(v, remove, n - 1);
    }
}

impl Store {
    /// The store that two documents describe; a document that does not exist
    /// is empty.
    pub fn at(repo_dir: Vec<u8>, comments: Option<Json>, states: Option<Json>) -> (r: Result<
        Store,
        Error,
    >)
        ensures
            match r {
                Ok(s) => {
                    let c = document_or_empty(comments);
                    let t = document_or_empty(states);
                    &&& valid_document(c, "comments"@)
                    &&& valid_document(t, "states"@)
                    &&& s@ == (StoreModel {
                        comments: read_comments(c),
                        states: read_states(t),
                        comments_root: fields_of(c),
                        states_root: fields_of(t),
                    })
                    &&& s.repo_dir == repo_dir
                },
                Err(e) => e == Error::StorageCorrupted && !(valid_document(
                    document_or_empty(comments),
                    "comments"@,
                ) && valid_document(document_or_empty(states), "states"@)),
            },
    {
        broadcast use lemma_models;

        let ghost c = document_or_empty(comments);
        let ghost t = document_or_empty(states);
        let comments_root = match check_document(comments, "comments") {
            Ok(f) => f,
            Err(e) => {
                return Err(e);
            },
        };
        let states_root = match check_document(states, "states") {
            Ok(f) => f,
            Err(e) => {
                return Err(e);
            },
        };
        let mut comment_list: Vec<Comment> = Vec::new();
        if let Some(Json::List(v)) = find_field(&comments_root, "comments") {
            proof {
                lemma_models(v@);
            }
            let mut i: usize = 0;
            while i < v.len()
                invariant
                    i <= v@.len(),
                    comment_list@.len() == i,
                    forall|k: int|
                        0 <= k < i ==> (#[trigger] comment_list@[k])@ == comment_of(model(v@[k])),
                decreases v@.len() - i,
            {
                comment_list.push(Comment::from_json(&v[i]));
                i += 1;
            }
            assert(comment_models(comment_list@) =~= read_comments(c));
        } else {
            assert(comment_models(comment_list@) =~= read_comments(c));
        }
        let mut state_list: Vec<ReviewState> = Vec::new();
        if let Some(Json::List(v)) = find_field(&states_root, "states") {
            proof {
                lemma_models(v@);
            }
            let mut i: usize = 0;
            while i < v.len()
                invariant
                    i <= v@.len(),
                    state_list@.len() == i,
                    forall|k: int|
                        0 <= k < i ==> (#[trigger] state_list@[k])@ == state_of_json(model(v@[k])),
                decreases v@.len() - i,
            {
                state_list.push(ReviewState::from_json(&v[i]));
                i += 1;
            }
            assert(state_models(state_list@) =~= read_states(t));
        } else {
            assert(state_models(state_list@) =~= read_states(t));
        }
        Ok(
            Store {
                comments: comment_list,
                states: state_list,
                repo_dir,
                comments_root,
                states_root,
            },
        )
    }

    /// The store that two files hold, each as far as it was read; `None` where
    /// there is no such file.
    pub fn open(repo_dir: Vec<u8>, comments: Option<Vec<u8>>, states: Option<Vec<u8>>) -> (r: Result<
        Store,
        Error,
    >)
        ensures
            ({
                let c = read_document(comments);
                let t = read_document(states);
                match r {
                    Ok(s) => {
                        &&& c is Some
                        &&& t is Some
                        &&& valid_document(c->0, "comments"@)
                        &&& valid_document(t->0, "states"@)
                        &&& s@ == (StoreModel {
                            comments: read_comments(c->0),
                            states: read_states(t->0),
                            comments_root: fields_of(c->0),
                            states_root: fields_of(t->0),
                        })
                        &&& s.repo_dir == repo_dir
                    },
                    Err(e) => e == Error::StorageCorrupted && (c is None || t is None || !(
                    valid_document(c->0, "comments"@) && valid_document(t->0, "states"@))),
                }
            }),
    {
        let c = match load_document(comments) {
            Ok(d) => d,
            Err(e) => {
                return Err(e);
            },
        };
        let t = match load_document(states) {
            Ok(d) => d,
            Err(e) => {
                return Err(e);
            },
        };
        Store::at(repo_dir, c, t)
    }

    /// The document to write for comments.
    pub fn save_comments(&self, comments: &Vec<Comment>) -> (r: Json)
        ensures
            model(r) == comments_document(self@, comment_models(comments@)),
    {
        broadcast use lemma_models;

        let mut list: Vec<Json> = Vec::new();
        let mut i: usize = 0;
        while i < comments.len()
            invariant
                i <= comments@.len(),
                list@.len() == i,
                forall|k: int|
                    0 <= k < i ==> model(#[trigger] list@[k]) == comment_json(comments@[k]@),
            decreases comments@.len() - i,
        {
            list.push(comments[i].to_json());
            i += 1;
        }
        assert(models(list@) =~= comment_models(comments@).map_values(
            |c: CommentModel| comment_json(c),
        ));
        let mut root = copy_fields(&self.comments_root);
        set_field(&mut root, "schema_version", Json::Unsigned(1));
        set_field(&mut root, "comments", Json::List(list));
        Json::Object(root)
    }

    /// The document to write for review states.
    pub fn save_states(&self, states: &Vec<ReviewState>) -> (r: Json)
        ensures
            model(r) == states_document(self@, state_models(states@)),
    {
        broadcast use lemma_models;

        let mut list: Vec<Json> = Vec::new();
        let mut i: usize = 0;
        while i < states.len()
            invariant
                i <= states@.len(),
                list@.len() == i,
                forall|k: int|
                    0 <= k < i ==> model(#[trigger] list@[k]) == state_json(states@[k]@),
            decreases states@.len() - i,
        {
            list.push(states[i].to_json());
            i += 1;
        }
        assert(models(list@) =~= state_models(states@).map_values(|x: StateModel| state_json(x)));
        let mut root = copy_fields(&self.states_root);
        set_field(&mut root, "schema_version", Json::Unsigned(1));
        set_field(&mut root, "states", Json::List(list));
        Json::Object(root)
    }

    /// Both documents, as they stand.
    pub fn save(&self) -> (r: (Json, Json))
        ensures
            model(r.0) == comments_document(self@, self@.comments),
            model(r.1) == states_document(self@, self@.states),
    {
        (self.save_comments(&self.comments), self.save_states(&self.states))
    }

    /// Mark a file as reviewed or not.
    pub fn set_reviewed(
        &self,
        repository_id: &str,
        target_id: &str,
        file: &DiffFile,
        reviewed: bool,
        now: &str,
    ) -> (r: StatesChange)
        ensures
            state_models(r.states@) == with_reviewed(
                self@.states,
                repository_id@,
                target_id@,
                file@,
                review_label(reviewed),
                now@,
            ),
            model(r.document) == states_document(self@, state_models(r.states@)),
    {
        let status = if reviewed {
            "reviewed"
        } else {
            "unreviewed"
        };
        let ghost all = self@.states;
        let mut states: Vec<ReviewState> = Vec::new();
        let mut set: bool = false;
        let mut i: usize = 0;
        let ghost whole = with_reviewed(
            all,
            repository_id@,
            target_id@,
            file@,
            status@,
            now@,
        );
        assert(all.skip(0) =~= all);
        assert(state_models(states@) + with_reviewed(
            all.skip(0),
            repository_id@,
            target_id@,
            file@,
            status@,
            now@,
        ) =~= whole);
        while i < self.states.len()
            invariant
                all == self@.states,
                i <= self.states@.len(),
                whole == state_models(states@) + (if set {
                    all.skip(i as int)
                } else {
                    with_reviewed(
                        all.skip(i as int),
                        repository_id@,
                        target_id@,
                        file@,
                        status@,
                        now@,
                    )
                }),
            decreases self.states@.len() - i,
        {
            let ghost t = all.skip(i as int);
            let ghost before = state_models(states@);
            assert(t[0] == self.states@[i as int]@);
            assert(t.skip(1) =~= all.skip(i + 1));
            assert(t =~= seq![t[0]] + t.skip(1));
            let mut state = self.states[i].copy();
            if !set && same_text(state.file_path.as_str(), file.path.as_str()) && same_text(
                state.review_target_id.as_str(),
                target_id,
            ) {
                state.status = status.to_owned();
                state.patch_fingerprint = file.patch_fingerprint.clone();
                state.updated_at = now.to_owned();
                set = true;
            }
            let ghost entry = state@;
            states.push(state);
            assert(state_models(states@) =~= before.push(entry));
            proof {
                let rest = if set {
                    all.skip(i + 1)
                } else {
                    with_reviewed(
                        all.skip(i + 1),
                        repository_id@,
                        target_id@,
                        file@,
                        status@,
                        now@,
                    )
                };
                assert(before.push(entry) + rest =~= before + (seq![entry] + rest));
            }
            i += 1;
        }
        if !set {
            let ghost before = state_models(states@);
            let entry = ReviewState {
                repository_id: repository_id.to_owned(),
                review_target_id: target_id.to_owned(),
                file_path: file.path.clone(),
                status: status.to_owned(),
                patch_fingerprint: file.patch_fingerprint.clone(),
                updated_at: now.to_owned(),
                original: Vec::new(),
            };
            assert(entry@.original =~= Seq::<(Seq<char>, JsonModel)>::empty());
            let ghost added = entry@;
            states.push(entry);
            assert(state_models(states@) =~= before.push(added));
            assert(whole =~= before + seq![added]);
        }
        assert(state_models(states@) =~= whole);
        let document = self.save_states(&states);
        StatesChange { states, document }
    }

    /// Take over review states once their document has been written; where it
    /// could not be, nothing changes.
    pub fn apply_states(&mut self, change: StatesChange, written: bool) -> (r: Result<(), Error>)
        ensures
            written ==> r is Ok && final(self)@ == (StoreModel {
                states: state_models(change.states@),
                ..old(self)@
            }),
            !written ==> r == Err::<(), Error>(Error::StorageWriteFailed) && final(self)@ == old(
                self)@,
            final(self).repo_dir == old(self).repo_dir,
    {
        if !written {
            return Err(Error::StorageWriteFailed);
        }
        self.states = change.states;
        Ok(())
    }

    /// Take over comments once their document has been written; where it could
    /// not be, nothing changes.
    pub fn apply_comments(&mut self, change: CommentsChange, written: bool) -> (r: Result<
        (),
        Error,
    >)
        ensures
            written ==> r is Ok && final(self)@ == (StoreModel {
                comments: comment_models(change.comments@),
                ..old(self)@
            }),
            !written ==> r == Err::<(), Error>(Error::StorageWriteFailed) && final(self)@ == old(
                self)@,
            final(self).repo_dir == old(self).repo_dir,
    {
        if !written {
            return Err(Error::StorageWriteFailed);
        }
        self.comments = change.comments;
        Ok(())
    }

    fn copy_comments(&self) -> (r: Vec<Comment>)
        ensures
            comment_models(r@) == self@.comments,
    {
        let mut out: Vec<Comment> = Vec::new();
        let mut i: usize = 0;
        while i < self.comments.len()
            invariant
                i <= self.comments@.len(),
                out@.len() == i,
                forall|k: int| 0 <= k < i ==> (#[trigger] out@[k])@ == self.comments@[k]@,
            decreases self.comments@.len() - i,
        {
            out.push(self.comments[i].copy());
            i += 1;
        }
        assert(comment_models(out@) =~= self@.comments);
        out
    }

    /// Add a comment on a line.
    pub fn add_comment(
        &self,
        repository_id: &str,
        target_id: &str,
        file: &DiffFile,
        line: &DiffLine,
        hunk_header: &str,
        end_line: u32,
        body: &str,
        author: &str,
        now: &str,
    ) -> (r: (CommentsChange, Comment))
        ensures
            r.1@ == new_comment(
                repository_id@,
                target_id@,
                file@,
                line@,
                hunk_header@,
                end_line,
                body@,
                author@,
                now@,
            ),
            comment_models(r.0.comments@) == self@.comments.push(r.1@),
            model(r.0.document) == comments_document(self@, self@.comments.push(r.1@)),
    {
        let deleted: bool = line.kind == DiffLineKind::Delete;
        let start_line: u32 = if deleted {
            match line.old_lineno {
                Some(n) => n,
                None => 0,
            }
        } else {
            match line.new_lineno {
                Some(n) => n,
                None => match line.old_lineno {
                    Some(n) => n,
                    None => 0,
                },
            }
        };
        let mut identity = String::new();
        identity.append(repository_id);
        identity.append(":");
        identity.append(target_id);
        identity.append(":");
        identity.append(file.path.as_str());
        identity.append(":");
        push_decimal(&mut identity, start_line as u64);
        identity.append(":");
        push_decimal(&mut identity, end_line as u64);
        identity.append(":");
        identity.append(now);
        identity.append(":");
        identity.append(body);
        assert(identity@ =~= comment_identity(
            repository_id@,
            target_id@,
            file@,
            start_line,
            end_line,
            now@,
            body@,
        ));
        let comment = Comment {
            comment_id: make_id("cmt_", identity.as_str().as_bytes()),
            repository_id: repository_id.to_owned(),
            review_target_id: target_id.to_owned(),
            file_path: file.path.clone(),
            side: if deleted {
                "old".to_owned()
            } else {
                "new".to_owned()
            },
            start_line,
            end_line: if end_line == 0 {
                start_line
            } else {
                end_line
            },
            stable_line_id: line.stable_line_id.clone(),
            hunk_header: hunk_header.to_owned(),
            context_before: Vec::new(),
            context_after: Vec::new(),
            patch_fingerprint: file.patch_fingerprint.clone(),
            match_status: MatchStatus::Exact,
            body: body.to_owned(),
            author: author.to_owned(),
            created_at: now.to_owned(),
            updated_at: now.to_owned(),
            original: Vec::new(),
        };
        assert(comment@.context_before =~= Seq::<Seq<char>>::empty());
        assert(comment@.context_after =~= Seq::<Seq<char>>::empty());
        assert(comment@.original =~= Seq::<(Seq<char>, JsonModel)>::empty());
        let mut comments = self.copy_comments();
        let ghost before = comment_models(comments@);
        comments.push(comment.copy());
        assert(comment_models(comments@) =~= before.push(comment@));
        let document = self.save_comments(&comments);
        (CommentsChange { comments, document }, comment)
    }

    /// Work out how the comments match the files of a snapshot.
    pub fn refresh_match_status(&mut self, snapshot: &DiffSnapshot)
        ensures
            final(self)@ == (StoreModel {
                comments: old(self)@.comments.map_values(
                    |c: CommentModel|
                        refreshed(
                            c,
                            crate::diff::file_models(snapshot.files@),
                            snapshot.review_target.target_id@,
                        ),
                ),
                ..old(self)@
            }),
            final(self).repo_dir == old(self).repo_dir,
    {
        let ghost files = crate::diff::file_models(snapshot.files@);
        let ghost target = snapshot.review_target.target_id@;
        let mut out: Vec<Comment> = Vec::new();
        let mut i: usize = 0;
        while i < self.comments.len()
            invariant
                *self == *old(self),
                files == crate::diff::file_models(snapshot.files@),
                target == snapshot.review_target.target_id@,
                i <= self.comments@.len(),
                out@.len() == i,
                forall|k: int|
                    0 <= k < i ==> (#[trigger] out@[k])@ == refreshed(
                        self.comments@[k]@,
                        files,
                        target,
                    ),
            decreases self.comments@.len() - i,
        {
            let mut c = self.comments[i].copy();
            if same_text(
                c.review_target_id.as_str(),
                snapshot.review_target.target_id.as_str(),
            ) {
                c.match_status = match find_path(&snapshot.files, c.file_path.as_str()) {
                    Some(f) => if same_text(
                        snapshot.files[f].patch_fingerprint.as_str(),
                        c.patch_fingerprint.as_str(),
                    ) {
                        MatchStatus::Exact
                    } else {
                        MatchStatus::Stale
                    },
                    None => MatchStatus::Missing,
                };
            }
            out.push(c);
            i += 1;
        }
        assert(comment_models(out@) =~= old(self)@.comments.map_values(
            |c: CommentModel| refreshed(c, files, target),
        ));
        self.comments = out;
    }

    /// Remove the comments of a target, and of a file where one is given, that
    /// no longer match.  Nothing has to be written where there are none.
    pub fn remove_outdated_comments(&self, target_id: &str, file_filter: Option<&str>) -> (r: (
        usize,
        Option<CommentsChange>,
    ))
        ensures
            self.is_removal(outdated_on(target_id@, filter_text(file_filter)), r),
    {
        let ghost remove = outdated_on(target_id@, filter_text(file_filter));
        let mut kept: Vec<Comment> = Vec::new();
        let mut i: usize = 0;
        assert(comment_models(kept@) =~= kept_comments(self@.comments, remove, 0));
        while i < self.comments.len()
            invariant
                remove == outdated_on(target_id@, filter_text(file_filter)),
                i <= self.comments@.len(),
                comment_models(kept@) == kept_comments(self@.comments, remove, i as int),
            decreases self.comments@.len() - i,
        {
            assert(self@.comments[i as int] == self.comments@[i as int]@);
            let ghost before = comment_models(kept@);
            if !is_outdated_on(&self.comments[i], target_id, file_filter) {
                kept.push(self.comments[i].copy());
                assert(comment_models(kept@) =~= before.push(self@.comments[i as int]));
            }
            i += 1;
        }
        self.removal(Ghost(remove), kept)
    }

    /// Remove all comments, or those of a file.
    pub fn remove_all_comments(&self, file_filter: Option<&str>) -> (r: (
        usize,
        Option<CommentsChange>,
    ))
        ensures
            self.is_removal(any_on(filter_text(file_filter)), r),
    {
        let ghost remove = any_on(filter_text(file_filter));
        let mut kept: Vec<Comment> = Vec::new();
        let mut i: usize = 0;
        assert(comment_models(kept@) =~= kept_comments(self@.comments, remove, 0));
        while i < self.comments.len()
            invariant
                remove == any_on(filter_text(file_filter)),
                i <= self.comments@.len(),
                comment_models(kept@) == kept_comments(self@.comments, remove, i as int),
            decreases self.comments@.len() - i,
        {
            assert(self@.comments[i as int] == self.comments@[i as int]@);
            let ghost before = comment_models(kept@);
            if !matches_file(&self.comments[i], file_filter) {
                kept.push(self.comments[i].copy());
                assert(comment_models(kept@) =~= before.push(self@.comments[i as int]));
            }
            i += 1;
        }
        self.removal(Ghost(remove), kept)
    }

    /// Whether a result is the removal of the comments that satisfy a
    /// condition: how many they are, and the change where there are any.
    pub open spec fn is_removal(
        &self,
        remove: spec_fn(CommentModel) -> bool,
        r: (usize, Option<CommentsChange>),
    ) -> bool {
        let n = self@.comments.len() as int;
        &&& r.0 == count_comments(self@.comments, remove, n)
        &&& match r.1 {
            Some(change) => {
                &&& r.0 > 0
                &&& comment_models(change.comments@) == kept_comments(self@.comments, remove, n)
                &&& model(change.document) == comments_document(
                    self@,
                    comment_models(change.comments@),
                )
            },
            None => r.0 == 0,
        }
    }

    fn removal(&self, Ghost(remove): Ghost<spec_fn(CommentModel) -> bool>, kept: Vec<Comment>) -> (r:
        (usize, Option<CommentsChange>))
        requires
            comment_models(kept@) == kept_comments(
                self@.comments,
                remove,
                self@.comments.len() as int,
            ),
        ensures
            self.is_removal(remove, r),
    {
        proof {
            law_removal_count(self@.comments, remove, self@.comments.len() as int);
            assert(comment_models(kept@).len() == kept@.len());
        }
        let removed: usize = self.comments.len() - kept.len();
        if removed == 0 {
            return (0, None);
        }
        let document = self.save_comments(&kept);
        (removed, Some(CommentsChange { comments: kept, document }))
    }
}

/// The index of the first file with a path.
pub fn find_path(files: &Vec<DiffFile>, path: &str) -> (r: Option<usize>)
    ensures
        match r {
            Some(i) => i < files@.len() && file_with_path(
                crate::diff::file_models(files@),
                path@,
            ) == Some(files@[i as int]@),
            None => file_with_path(crate::diff::file_models(files@), path@) is None,
        },
{
    let ghost all = crate::diff::file_models(files@);
    let mut i: usize = 0;
    assert(all.skip(0) =~= all);
    while i < files.len()
        invariant
            all == crate::diff::file_models(files@),
            i <= files@.len(),
            file_with_path(all, path@) == file_with_path(all.skip(i as int), path@),
        decreases files@.len() - i,
    {
        assert(all.skip(i as int)[0] == files@[i as int]@);
        assert(all.skip(i as int).skip(1) =~= all.skip(i + 1));
        if same_text(files[i].path.as_str(), path) {
            return Some(i);
        }
        i += 1;
    }
    None
}

} // verus!
