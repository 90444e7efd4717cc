use vstd::prelude::*;

verus! {

#[verifier::external_type_specification]
#[verifier::external_body]
pub struct ExRegexError(regex::Error);

/// What the regular expression `pattern` captures with group `group` in
/// `haystack`, at its first match: `None` when `pattern` is not a valid
/// expression, `Some(None)` when nothing matches or the group takes no part
/// in the match, and `Some(Some(text))` with the text of the group otherwise.
pub uninterp spec fn regex_capture(pattern: Seq<char>, haystack: Seq<char>, group: nat) -> Option<
    Option<Seq<char>>,
>;

/// Calls `regex::Regex::new(pattern)`, then `Regex::captures(haystack)` and
/// `Captures::get(group)`, and copies the text of the group. The contract
/// claims only that the outcome is a function of the three arguments (named
/// `regex_capture`), with a compile error where `regex_capture` is `None`:
/// what the expression matches is left to the `regex` crate.
#[verifier::external_body]
fn capture_group(pattern: &str, haystack: &str, group: usize) -> (r: Result<
    Option<String>,
    regex::Error,
>)
    ensures
        match r {
            Ok(Some(s)) => regex_capture(pattern@, haystack@, group as nat) == Some(Some(s@)),
            Ok(None) => regex_capture(pattern@, haystack@, group as nat) == Some(
                None::<Seq<char>>,
            ),
            Err(_) => regex_capture(pattern@, haystack@, group as nat) is None,
        },
{
    let re = regex::Regex::new(pattern)?;
    match re.captures(haystack) {
        Some(caps) => match caps.get(group) {
            Some(m) => Ok(Some(m.as_str().to_string())),
            None => Ok(None),
        },
        None => Ok(None),
    }
}

/// The expression a collection link is recognised by; its first group is
/// the collection number.
pub open spec fn collection_link_pattern() -> Seq<char> {
    "https://archidekt\\.com/collection/v2/(\\d+)/?"@
}

/// Collection links are recognised by the literal host and path followed
/// by the whole run of digits `(\d+)`, captured as group 1, and an optional
/// slash.
pub proof fn lemma_collection_link_pattern()
    ensures
        collection_link_pattern() == "https://archidekt\\.com/collection/v2/(\\d+)/?"@,
{
}

/// The regular expression of collection links did not compile.
pub enum LinkPatternError {
    InvalidPattern,
}

/// Where a submitted link leads: the page of the collection whose number
/// it holds, or else the start page.
pub fn redirect_target(collection_id: Option<String>) -> (path: String)
    ensures
        match collection_id {
            Some(id) => path@ == "/archidekt/"@ + id@,
            None => path@ == "/"@,
        },
{
    match collection_id {
        Some(id) => {
            let mut path = String::from_str("/archidekt/");
            path.append(id.as_str());
            path
        },
        None => String::from_str("/"),
    }
}

/// Where the submitted link `url` leads: to the page of the collection
/// whose number it holds, when the link is a collection link; else to the
/// start page.
pub fn process_url(url: &str) -> (r: Result<String, LinkPatternError>)
    ensures
        match regex_capture("https://archidekt\\.com/collection/v2/(\\d+)/?"@, url@, 1) {
            Some(Some(id)) => r is Ok && r->Ok_0@ == "/archidekt/"@ + id,
            Some(None) => r is Ok && r->Ok_0@ == "/"@,
            None => r is Err,
        },
{
    let pattern = "https://archidekt\\.com/collection/v2/(\\d+)/?";
    proof {
        assert(pattern@ == collection_link_pattern());
    }
    match capture_group(pattern, url, 1) {
        Ok(id) => Ok(redirect_target(id)),
        Err(_) => Err(LinkPatternError::InvalidPattern),
    }
}

/// The start page: its template and the text of its head.
pub struct IndexPage {
    pub template: String,
    pub title: String,
    pub description: String,
}

/// The start page.
pub fn index() -> (p: IndexPage)
    ensures
        p.template@ == "index"@,
        p.title@ == "Set Binder"@,
        p.description@ == "Track every set. Complete your collection."@,
{
    IndexPage {
        template: String::from_str("index"),
        title: String::from_str("Set Binder"),
        description: String::from_str("Track every set. Complete your collection."),
    }
}

/// The page of a collection: its set reports, or the error that stopped
/// them.
pub enum CollectionPage<S> {
    Sets { sets: Vec<S>, title: String, description: String },
    Error { message: String },
}

impl<S> CollectionPage<S> {
    /// The template the page is rendered with.
    pub fn template(&self) -> (t: &'static str)
        ensures
            t@ == (match self {
                CollectionPage::Sets { .. } => "sets"@,
                CollectionPage::Error { .. } => "error"@,
            }),
    {
        match self {
            CollectionPage::Sets { .. } => "sets",
            CollectionPage::Error { .. } => "error",
        }
    }
}

/// The page of a collection, from the outcome of building its reports.
pub fn archidekt<S>(outcome: Result<Vec<S>, String>) -> (p: CollectionPage<S>)
    ensures
        match outcome {
            Ok(sets) => match p {
                CollectionPage::Sets { sets: s, title, description } => s@ == sets@ && title@
                    == "Archidekt Set Binder"@ && description@
                    == "Set completion for an archidekt collection"@,
                CollectionPage::Error { .. } => false,
            },
            Err(message) => match p {
                CollectionPage::Error { message: m } => m == message,
                CollectionPage::Sets { .. } => false,
            },
        },
{
    match outcome {
        Ok(sets) => CollectionPage::Sets {
            sets,
            title: String::from_str("Archidekt Set Binder"),
            description: String::from_str("Set completion for an archidekt collection"),
        },
        Err(message) => CollectionPage::Error { message },
    }
}

/// The kind of content a response carries.
pub enum ContentKind {
    Css,
}

/// The stylesheet response: the stylesheet, sent as CSS.
pub fn style(stylesheet: &str) -> (r: (ContentKind, &str))
    ensures
        r.0 == ContentKind::Css,
        r.1@ == stylesheet@,
{
    (ContentKind::Css, stylesheet)
}

/// The request methods the server answers.
pub enum Method {
    Get,
    Post,
}

/// One route of the server.
pub struct Route {
    pub method: Method,
    pub path: String,
}

/// The routes of the server and the path they are mounted at.
pub struct Mount {
    pub base: String,
    pub routes: Vec<Route>,
}

/// Whether `r` is the route with method `m` and path `p`.
pub open spec fn is_route(r: Route, m: Method, p: Seq<char>) -> bool {
    r.method == m && r.path@ == p
}

/// The server's routes, all mounted at the root: the collection page, the
/// start page, the link form and the stylesheet.
pub fn rocket() -> (m: Mount)
    ensures
        m.base@ == "/"@,
        m.routes@.len() == 4,
        is_route(m.routes@[0], Method::Get, "/archidekt/<id>"@),
        is_route(m.routes@[1], Method::Get, "/"@),
        is_route(m.routes@[2], Method::Post, "/"@),
        is_route(m.routes@[3], Method::Get, "/style.css"@),
{
    let mut routes: Vec<Route> = Vec::new();
    routes.push(Route { method: Method::Get, path: String::from_str("/archidekt/<id>") });
    routes.push(Route { method: Method::Get, path: String::from_str("/") });
    routes.push(Route { method: Method::Post, path: String::from_str("/") });
    routes.push(Route { method: Method::Get, path: String::from_str("/style.css") });
    Mount { base: String::from_str("/"), routes }
}

} // verus!
