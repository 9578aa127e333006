//! The viewer's state and how each user action changes it: formatting the
//! pasted document, clearing, searching, switching between the tree, diff
//! and settings screens, choosing a theme and comparing two documents. The
//! text parsing of a document is handed in as its outcome.

use vstd::prelude::*;
use crate::json::{
    Json, JsonStats, SpecJson, height, items_node_count, items_view, lemma_array_view, node_count,
    node_count_checked, parse_document, parsed_document,
};
use crate::text::{chars_of, trim, trim_chars};
use crate::theme::Theme;
use crate::diff::{
    DiffNode, compute_diff, diff_of, json_eq, lemma_diff_keeps_new_side, lemma_diff_keeps_old_side,
    new_side, old_side,
};
use crate::tree::{SearchNode, SpecSearchNode, normalize_query, search_of};

verus! {

/// The viewer's state.
pub struct UnfurlApp {
    input: String,
    search_query: String,
    parsed: Option<Json>,
    stats: Option<JsonStats>,
    search: Option<SearchNode>,
    error: Option<String>,
    theme: Theme,
    show_settings: bool,
    diff_mode: bool,
    diff_input_b: String,
    diff_error: Option<String>,
}

/// The mathematical value of the viewer's state. `stats` holds the number
/// of values and the depth of the formatted document.
pub struct AppModel {
    pub input: Seq<char>,
    pub search_query: Seq<char>,
    pub parsed: Option<SpecJson>,
    pub stats: Option<(nat, nat)>,
    pub search: Option<SpecSearchNode>,
    pub error: Option<Seq<char>>,
    pub theme: Theme,
    pub show_settings: bool,
    pub diff_mode: bool,
    pub diff_input_b: Seq<char>,
    pub diff_error: Option<Seq<char>>,
}

/// The characters of an optional text.
pub open spec fn opt_text(s: Option<String>) -> Option<Seq<char>> {
    match s {
        Some(t) => Some(t@),
        None => None,
    }
}

impl View for UnfurlApp {
    type V = AppModel;

    closed spec fn view(&self) -> AppModel {
        AppModel {
            input: self.input@,
            search_query: self.search_query@,
            parsed: match self.parsed {
                Some(v) => Some(v@),
                None => None,
            },
            stats: match self.stats {
                Some(s) => Some((s.nodes as nat, s.depth as nat)),
                None => None,
            },
            search: match self.search {
                Some(n) => Some(n@),
                None => None,
            },
            error: opt_text(self.error),
            theme: self.theme,
            show_settings: self.show_settings,
            diff_mode: self.diff_mode,
            diff_input_b: self.diff_input_b@,
            diff_error: opt_text(self.diff_error),
        }
    }
}

/// What every state of the viewer satisfies: a held document's values can
/// be counted, and the settings and comparison screens are never shown
/// together.
pub open spec fn model_wf(m: AppModel) -> bool {
    &&& match m.parsed {
        Some(v) => node_count(v) <= usize::MAX,
        None => true,
    }
    &&& !(m.show_settings && m.diff_mode)
}

/// The search index the viewer shows for a document and a search text:
/// none without a document or when the search text is only whitespace.
pub open spec fn expected_search(parsed: Option<SpecJson>, query: Seq<char>) -> Option<SpecSearchNode> {
    match parsed {
        Some(v) => if trim(query).len() > 0 {
            Some(search_of(None, v, normalize_query(query)))
        } else {
            None
        },
        None => None,
    }
}

/// The size figures of a document: its number of values and its depth.
pub open spec fn stats_of(v: SpecJson) -> (nat, nat) {
    (node_count(v), height(v))
}

/// A parsing outcome that the viewer can hold: a document whose values
/// can be counted in a `usize`.
pub open spec fn outcome_fits(o: Result<SpecJson, Seq<char>>) -> bool {
    match o {
        Ok(v) => node_count(v) <= usize::MAX,
        Err(_) => true,
    }
}

/// The state after formatting the pasted text of `m`: a text that is empty
/// or only whitespace is refused as an empty file; a text that does not
/// parse is refused with the parser's message; otherwise the document, its
/// size figures and its search index are shown. Nothing else changes.
pub open spec fn formatted(m: AppModel) -> AppModel {
    if trim(m.input).len() == 0 {
        AppModel { parsed: None, stats: None, search: None, error: Some("Invalid: Empty file"@), ..m }
    } else {
        match parsed_document(m.input) {
            Ok(v) => AppModel {
                parsed: Some(v),
                stats: Some(stats_of(v)),
                search: expected_search(Some(v), m.search_query),
                error: None,
                ..m
            },
            Err(e) => AppModel {
                parsed: None,
                stats: None,
                search: None,
                error: Some("Invalid JSON: "@ + e),
                ..m
            },
        }
    }
}

/// Whether the viewer can hold what formatting `m` gives.
pub open spec fn can_format(m: AppModel) -> bool {
    trim(m.input).len() == 0 || outcome_fits(parsed_document(m.input))
}

/// The state after the compare button in `m`: the message is cleared;
/// when both texts parse, the pair of the two documents becomes the held
/// document (its figures and index stay as they were); otherwise the
/// message names the first text that does not parse.
pub open spec fn compared(m: AppModel) -> AppModel {
    match (parsed_document(m.input), parsed_document(m.diff_input_b)) {
        (Ok(x), Ok(y)) => AppModel {
            parsed: Some(SpecJson::Array(seq![x, y])),
            diff_error: None,
            ..m
        },
        (Err(_), _) => AppModel { diff_error: Some("JSON A is invalid"@), ..m },
        (Ok(_), Err(_)) => AppModel { diff_error: Some("JSON B is invalid"@), ..m },
    }
}

/// Whether the viewer can hold what the compare button gives in `m`.
pub open spec fn can_compare(m: AppModel) -> bool {
    match (parsed_document(m.input), parsed_document(m.diff_input_b)) {
        (Ok(x), Ok(y)) => 1 + node_count(x) + node_count(y) <= usize::MAX,
        _ => true,
    }
}

/// Formatting the same text a second time changes nothing, and can be
/// done exactly when the first time could.
pub proof fn lemma_format_idempotent(m: AppModel)
    ensures
        can_format(formatted(m)) == can_format(m),
        formatted(formatted(m)) == formatted(m),
{
}

/// After formatting, a document is held exactly when its figures are and
/// exactly when there is no message, and an index is shown only for a held
/// document and a search text that is not only whitespace.
pub proof fn lemma_format_consistent(m: AppModel)
    ensures
        formatted(m).parsed is Some == formatted(m).stats is Some,
        formatted(m).parsed is Some == formatted(m).error is None,
        formatted(m).search is Some ==> formatted(m).parsed is Some && trim(m.search_query).len() > 0,
{
}

impl UnfurlApp {
    /// The state's invariant, kept by every action: a held document's values
    /// can be counted, and the settings and comparison screens are never
    /// shown together.
    pub open spec fn wf(&self) -> bool {
        model_wf(self@)
    }

    /// The state at start-up, with the theme that was stored.
    pub fn new(theme: Theme) -> (r: UnfurlApp)
        ensures
            r.wf(),
            r@ == (AppModel {
                input: Seq::empty(),
                search_query: Seq::empty(),
                parsed: None,
                stats: None,
                search: None,
                error: None,
                theme: theme,
                show_settings: false,
                diff_mode: false,
                diff_input_b: Seq::empty(),
                diff_error: None,
            }),
    {
        UnfurlApp {
            input: String::new(),
            search_query: String::new(),
            parsed: None,
            stats: None,
            search: None,
            error: None,
            theme,
            show_settings: false,
            diff_mode: false,
            diff_input_b: String::new(),
            diff_error: None,
        }
    }

    /// The pasted text of the (first) document.
    pub fn input(&self) -> (r: &String)
        ensures
            r@ == self@.input,
    {
        &self.input
    }

    /// The search text.
    pub fn search_query(&self) -> (r: &String)
        ensures
            r@ == self@.search_query,
    {
        &self.search_query
    }

    /// The pasted text of the second document of a comparison.
    pub fn diff_input_b(&self) -> (r: &String)
        ensures
            r@ == self@.diff_input_b,
    {
        &self.diff_input_b
    }

    /// The formatted document, if any.
    pub fn parsed(&self) -> (r: Option<&Json>)
        ensures
            match r {
                Some(v) => self@.parsed == Some(v@),
                None => self@.parsed is None,
            },
    {
        match &self.parsed {
            Some(v) => Some(v),
            None => None,
        }
    }

    /// The size figures of the formatted document, if any.
    pub fn stats(&self) -> (r: Option<&JsonStats>)
        ensures
            match r {
                Some(s) => self@.stats == Some((s.nodes as nat, s.depth as nat)),
                None => self@.stats is None,
            },
    {
        match &self.stats {
            Some(s) => Some(s),
            None => None,
        }
    }

    /// The search index of the formatted document, if any.
    pub fn search(&self) -> (r: Option<&SearchNode>)
        ensures
            match r {
                Some(n) => self@.search == Some(n@),
                None => self@.search is None,
            },
    {
        match &self.search {
            Some(n) => Some(n),
            None => None,
        }
    }

    /// The message about the last formatting, if it failed.
    pub fn error(&self) -> (r: Option<&String>)
        ensures
            match r {
                Some(e) => self@.error == Some(e@),
                None => self@.error is None,
            },
    {
        match &self.error {
            Some(e) => Some(e),
            None => None,
        }
    }

    /// The message about the last comparison, if it failed.
    pub fn diff_error(&self) -> (r: Option<&String>)
        ensures
            match r {
                Some(e) => self@.diff_error == Some(e@),
                None => self@.diff_error is None,
            },
    {
        match &self.diff_error {
            Some(e) => Some(e),
            None => None,
        }
    }

    /// The chosen theme.
    pub fn theme(&self) -> (r: Theme)
        ensures
            r == self@.theme,
    {
        self.theme
    }

    /// Whether the settings screen is shown.
    pub fn show_settings(&self) -> (r: bool)
        ensures
            r == self@.show_settings,
    {
        self.show_settings
    }

    /// Whether the comparison screen is shown.
    pub fn diff_mode(&self) -> (r: bool)
        ensures
            r == self@.diff_mode,
    {
        self.diff_mode
    }

    /// Replaces the pasted text of the (first) document.
    pub fn set_input(&mut self, text: String)
        requires
            old(self).wf(),
        ensures
            final(self).wf(),
            final(self)@ == (AppModel { input: text@, ..old(self)@ }),
    {
        self.input = text;
    }

    /// Replaces the pasted text of the second document of a comparison.
    pub fn set_diff_input_b(&mut self, text: String)
        requires
            old(self).wf(),
        ensures
            final(self).wf(),
            final(self)@ == (AppModel { diff_input_b: text@, ..old(self)@ }),
    {
        self.diff_input_b = text;
    }

    /// Rebuilds the search index from the formatted document and the search
    /// text with surrounding whitespace removed; there is none without a
    /// document or when that text is empty.
    pub fn refresh_search(&mut self)
        requires
            old(self).wf(),
        ensures
            final(self).wf(),
            final(self)@ == (AppModel {
                search: expected_search(old(self)@.parsed, old(self)@.search_query),
                ..old(self)@
            }),
    {
        let q = chars_of(self.search_query.as_str());
        let query = trim_chars(&q);
        let search = match &self.parsed {
            Some(value) => if query.len() > 0 {
                Some(SearchNode::build(None, value, self.search_query.as_str()))
            } else {
                None
            },
            None => None,
        };
        self.search = search;
    }

    /// The search text was edited to `query`: the index follows it.
    pub fn edit_search(&mut self, query: String)
        requires
            old(self).wf(),
        ensures
            final(self).wf(),
            final(self)@ == (AppModel {
                search_query: query@,
                search: expected_search(old(self)@.parsed, query@),
                ..old(self)@
            }),
    {
        self.search_query = query;
        self.refresh_search();
    }

    /// The search is reset: the search text is emptied and there is no
    /// index any more.
    pub fn reset_search(&mut self)
        requires
            old(self).wf(),
        ensures
            final(self).wf(),
            final(self)@ == (AppModel { search_query: Seq::empty(), search: None, ..old(self)@ }),
    {
        self.search_query = String::new();
        self.refresh_search();
    }

    /// Formats the pasted document: see [`formatted`]. Tells whether it
    /// did; it leaves the state as it was only when the parsed document
    /// has more values than a `usize` counts.
    pub fn format(&mut self) -> (done: bool)
        requires
            old(self).wf(),
        ensures
            final(self).wf(),
            done == can_format(old(self)@),
            done ==> final(self)@ == formatted(old(self)@),
            !done ==> final(self)@ == old(self)@,
    {
        let cs = chars_of(self.input.as_str());
        let trimmed = trim_chars(&cs);
        if trimmed.len() == 0 {
            self.parsed = None;
            self.stats = None;
            self.search = None;
            self.error = Some(String::from_str("Invalid: Empty file"));
            return true;
        }
        match parse_document(self.input.as_str()) {
            Ok(v) => {
                if node_count_checked(&v).is_none() {
                    return false;
                }
                self.stats = Some(JsonStats::compute(&v));
                self.parsed = Some(v);
                self.error = None;
                self.refresh_search();
            },
            Err(e) => {
                self.parsed = None;
                self.stats = None;
                self.search = None;
                let mut message = String::from_str("Invalid JSON: ");
                message.append(e.as_str());
                self.error = Some(message);
            },
        }
        true
    }

    /// Clears the pasted text, the search text, the document, its figures,
    /// its index and any message.
    pub fn clear(&mut self)
        requires
            old(self).wf(),
        ensures
            final(self).wf(),
            final(self)@ == (AppModel {
                input: Seq::empty(),
                search_query: Seq::empty(),
                parsed: None,
                stats: None,
                search: None,
                error: None,
                ..old(self)@
            }),
    {
        self.input = String::new();
        self.search_query = String::new();
        self.parsed = None;
        self.stats = None;
        self.search = None;
        self.error = None;
    }

    /// The settings button: shows or hides the settings, and leaves the
    /// comparison screen.
    pub fn toggle_settings(&mut self)
        requires
            old(self).wf(),
        ensures
            final(self).wf(),
            final(self)@ == (AppModel {
                show_settings: !old(self)@.show_settings,
                diff_mode: false,
                ..old(self)@
            }),
    {
        self.show_settings = !self.show_settings;
        self.diff_mode = false;
    }

    /// The comparison button: shows or hides the comparison screen, and
    /// leaves the settings.
    pub fn toggle_diff(&mut self)
        requires
            old(self).wf(),
        ensures
            final(self).wf(),
            final(self)@ == (AppModel {
                diff_mode: !old(self)@.diff_mode,
                show_settings: false,
                ..old(self)@
            }),
    {
        self.diff_mode = !self.diff_mode;
        self.show_settings = false;
    }

    /// The back button of the settings screen.
    pub fn close_settings(&mut self)
        requires
            old(self).wf(),
        ensures
            final(self).wf(),
            final(self)@ == (AppModel { show_settings: false, ..old(self)@ }),
    {
        self.show_settings = false;
    }

    /// Chooses `theme`; tells whether it differs from the one before, in
    /// which case the viewer applies and stores it.
    pub fn choose_theme(&mut self, theme: Theme) -> (changed: bool)
        requires
            old(self).wf(),
        ensures
            final(self).wf(),
            final(self)@ == (AppModel { theme: theme, ..old(self)@ }),
            changed == (theme != old(self)@.theme),
    {
        let changed = self.theme != theme;
        self.theme = theme;
        changed
    }

    /// The comparison that the comparison screen shows: none while a
    /// message about the last comparison is shown or when either text does
    /// not parse, and otherwise the comparison of the two documents, from
    /// which the second document can be read back whole, and the first one
    /// up to `serde_json` equality.
    pub fn comparison(&self) -> (r: Option<DiffNode>)
        ensures
            match (parsed_document(self@.input), parsed_document(self@.diff_input_b)) {
                (Ok(x), Ok(y)) => if self@.diff_error is None {
                    (r matches Some(d) && d@ == diff_of(None, x, y) && new_side(d@) == Some(y)
                        && (old_side(d@) matches Some(o) && json_eq(x, o)))
                } else {
                    r is None
                },
                _ => r is None,
            },
    {
        if self.diff_error.is_some() {
            return None;
        }
        let a = parse_document(self.input.as_str());
        let b = parse_document(self.diff_input_b.as_str());
        match (a, b) {
            (Ok(x), Ok(y)) => {
                proof {
                    lemma_diff_keeps_new_side(None, x@, y@);
                    lemma_diff_keeps_old_side(None, x@, y@);
                }
                Some(compute_diff(&x, &y))
            },
            _ => None,
        }
    }

    /// The compare button: see [`compared`]. Tells whether it did; it
    /// leaves the state as it was only when the pair of documents has more
    /// values than a `usize` counts.
    pub fn compare(&mut self) -> (done: bool)
        requires
            old(self).wf(),
        ensures
            final(self).wf(),
            done == can_compare(old(self)@),
            done ==> final(self)@ == compared(old(self)@),
            !done ==> final(self)@ == old(self)@,
    {
        let a = parse_document(self.input.as_str());
        let b = parse_document(self.diff_input_b.as_str());
        match (a, b) {
            (Ok(x), Ok(y)) => {
                let fits = match (node_count_checked(&x), node_count_checked(&y)) {
                    (Some(cx), Some(cy)) => match cx.checked_add(cy) {
                        Some(t) => t < usize::MAX,
                        None => false,
                    },
                    _ => false,
                };
                if !fits {
                    return false;
                }
                let mut pair: Vec<Json> = Vec::new();
                pair.push(x);
                pair.push(y);
                let value = Json::Array(pair);
                proof {
                    lemma_array_view(pair);
                    let xs = items_view(pair@);
                    assert(xs =~= seq![x@, y@]);
                    let p = xs.subrange(0, 1);
                    assert(p.subrange(0, 0) =~= Seq::<SpecJson>::empty());
                    assert(items_node_count(p.subrange(0, 0)) == 0);
                    assert(items_node_count(p) == node_count(x@));
                    assert(items_node_count(xs) == node_count(x@) + node_count(y@));
                }
                self.diff_error = None;
                self.parsed = Some(value);
            },
            (Err(_), _) => {
                self.diff_error = Some(String::from_str("JSON A is invalid"));
            },
            (Ok(_), Err(_)) => {
                self.diff_error = Some(String::from_str("JSON B is invalid"));
            },
        }
        true
    }
}

/// The settings screen and the comparison screen are never shown together:
/// the state at start-up satisfies [`UnfurlApp::wf`] and every action keeps
/// it, so this holds after any sequence of actions.
pub proof fn lemma_screens_exclusive(app: &UnfurlApp)
    requires
        app.wf(),
    ensures
        !(app@.show_settings && app@.diff_mode),
{
}


/// The figures shown after formatting are those of the document shown:
/// its number of values and its depth. When the pasted text is not blank
/// and parses, the document shown is the parsed one; otherwise no document
/// and no figures are shown, and a message is.
pub proof fn lemma_format_figures(m: AppModel)
    ensures
        formatted(m).parsed matches Some(v) ==> formatted(m).stats == Some((node_count(v), height(v))),
        formatted(m).parsed is None ==> formatted(m).stats is None && formatted(m).error is Some,
        (trim(m.input).len() > 0 && parsed_document(m.input) is Ok) ==> formatted(m).parsed == Some(
            parsed_document(m.input)->Ok_0,
        ),
        (trim(m.input).len() == 0 || parsed_document(m.input) is Err) ==> formatted(m).parsed is None,
{
}


/// What the compare button leaves: no message exactly when both texts
/// parse, and then the pair of the first and the second document is held;
/// otherwise the message names the first text that does not parse and the
/// held document stays. The texts, the search, the figures, the theme and
/// the screens never change.
pub proof fn lemma_compare_outcome(m: AppModel)
    ensures
        (compared(m).diff_error is None) == (parsed_document(m.input) is Ok && parsed_document(m.diff_input_b) is Ok),
        (parsed_document(m.input) is Ok && parsed_document(m.diff_input_b) is Ok) ==> compared(m).parsed == Some(
            SpecJson::Array(seq![parsed_document(m.input)->Ok_0, parsed_document(m.diff_input_b)->Ok_0]),
        ),
        parsed_document(m.input) is Err ==> compared(m).diff_error == Some("JSON A is invalid"@) && compared(m).parsed == m.parsed,
        (parsed_document(m.input) is Ok && parsed_document(m.diff_input_b) is Err) ==> compared(m).diff_error == Some(
            "JSON B is invalid"@,
        ) && compared(m).parsed == m.parsed,
        compared(m).input == m.input && compared(m).diff_input_b == m.diff_input_b,
        compared(m).search_query == m.search_query && compared(m).search == m.search && compared(m).stats == m.stats,
        compared(m).error == m.error && compared(m).theme == m.theme,
        compared(m).show_settings == m.show_settings && compared(m).diff_mode == m.diff_mode,
{
}

} // verus!
