use vstd::prelude::*;
use crate::record::{Config, Record};
use crate::text::{chars_of, find, find_from, occurs_at, lemma_find_from};
use vstd::string::StrSliceExecFns;

verus! {

/// Whether `pat` occurs anywhere in `s`.
pub open spec fn contains_seq(s: Seq<char>, pat: Seq<char>) -> bool {
    exists|i: int| occurs_at(s, pat, i)
}

/// Whether `pat` occurs anywhere in `s`.
pub fn contains_chars(s: &Vec<char>, pat: &Vec<char>) -> (r: bool)
    ensures
        r == contains_seq(s@, pat@),
{
    proof {
        lemma_find_from(s@, pat@, 0);
    }
    match find(s, pat, 0) {
        Some(_) => true,
        None => false,
    }
}

/// Whether `c` is `e`, or the capital form of the ASCII letter `e`.
pub open spec fn same_ignoring_case(c: char, e: char) -> bool {
    c == e || ('A' <= c <= 'Z' && c as u32 + 32 == e as u32)
}

/// Whether `p` ends with a dot and then `ext`, letters compared without case.
pub open spec fn has_extension(p: Seq<char>, ext: Seq<char>) -> bool {
    &&& p.len() > ext.len()
    &&& p[p.len() - ext.len() - 1] == '.'
    &&& forall|i: int| 0 <= i < ext.len() ==> same_ignoring_case(#[trigger] p[p.len() - ext.len() + i], ext[i])
}

/// A path to a static asset: its extension, in lower case, is one of txt,
/// xml, css, js, jpg, png, gif, svg, ico and otf.
pub open spec fn is_media(p: Seq<char>) -> bool {
    has_extension(p, seq!['t', 'x', 't']) || has_extension(p, seq!['x', 'm', 'l'])
        || has_extension(p, seq!['c', 's', 's']) || has_extension(p, seq!['j', 's'])
        || has_extension(p, seq!['j', 'p', 'g']) || has_extension(p, seq!['p', 'n', 'g'])
        || has_extension(p, seq!['g', 'i', 'f']) || has_extension(p, seq!['s', 'v', 'g'])
        || has_extension(p, seq!['i', 'c', 'o']) || has_extension(p, seq!['o', 't', 'f'])
}

fn has_extension_exec(p: &Vec<char>, ext: Vec<char>) -> (r: bool)
    ensures
        r == has_extension(p@, ext@),
{
    if p.len() <= ext.len() {
        return false;
    }
    let base = p.len() - ext.len();
    if p[base - 1] != '.' {
        return false;
    }
    let mut i: usize = 0;
    while i < ext.len()
        invariant
            i <= ext@.len(),
            base == p@.len() - ext@.len(),
            p@.len() <= usize::MAX,
            p@.len() > ext@.len(),
            forall|t: int| 0 <= t < i ==> same_ignoring_case(#[trigger] p@[p@.len() - ext@.len() + t], ext@[t]),
        decreases ext@.len() - i,
    {
        let c = p[base + i];
        let e = ext[i];
        if !(c == e || ('A' <= c && c <= 'Z' && c as u32 + 32 == e as u32)) {
            return false;
        }
        i += 1;
    }
    true
}

/// Whether the path names a static asset by its extension.
pub fn is_media_path(path: &String) -> (r: bool)
    ensures
        r == is_media(path@),
{
    let p = chars_of(path.as_str());
    has_extension_exec(&p, vec!['t', 'x', 't']) || has_extension_exec(&p, vec!['x', 'm', 'l'])
        || has_extension_exec(&p, vec!['c', 's', 's']) || has_extension_exec(&p, vec!['j', 's'])
        || has_extension_exec(&p, vec!['j', 'p', 'g']) || has_extension_exec(&p, vec!['p', 'n', 'g'])
        || has_extension_exec(&p, vec!['g', 'i', 'f']) || has_extension_exec(&p, vec!['s', 'v', 'g'])
        || has_extension_exec(&p, vec!['i', 'c', 'o']) || has_extension_exec(&p, vec!['o', 't', 'f'])
}

/// Whether a user agent holds one of the signatures, compared with case.
pub open spec fn is_crawler_agent(agent: Seq<char>, signatures: Seq<Seq<char>>) -> bool {
    exists|i: int| 0 <= i < signatures.len() && contains_seq(agent, #[trigger] signatures[i])
}

pub open spec fn views_of(v: Seq<String>) -> Seq<Seq<char>> {
    v.map_values(|s: String| s@)
}

/// Whether the user agent holds one of `signatures`.
pub fn is_crawler(user_agent: &String, signatures: &Vec<String>) -> (r: bool)
    ensures
        r == is_crawler_agent(user_agent@, views_of(signatures@)),
{
    let agent = chars_of(user_agent.as_str());
    let mut i: usize = 0;
    while i < signatures.len()
        invariant
            i <= signatures@.len(),
            agent@ == user_agent@,
            forall|t: int| 0 <= t < i ==> !contains_seq(user_agent@, #[trigger] views_of(signatures@)[t]),
        decreases signatures@.len() - i,
    {
        let sig = chars_of(signatures[i].as_str());
        if contains_chars(&agent, &sig) {
            assert(contains_seq(user_agent@, views_of(signatures@)[i as int]));
            return true;
        }
        i += 1;
    }
    false
}

/// The user-agent signatures of crawlers, feed readers and HTTP tools that
/// a filter uses unless told otherwise.
pub open spec fn default_signatures() -> Seq<Seq<char>> {
    seq![
        "https:"@, "http:"@, "Bot"@, "bot"@, "crawler"@, "spider"@, "compatible;"@,
        "subscriber"@, "Gwene"@, "Zapier"@, "Automattic"@, "WhatsApp"@, "curl"@, "scraper"@,
        "Wget"@, "Python"@, "Ruby"@, "Go"@, "Rome"@, "Jersey"@, "Emacs"@, "+collection@"@,
        "Slack"@, "Reeder"@, "Twitter"@, "requests"@, "Apache-"@, "perl"@, "uatools"@,
    ]
}

/// The default crawler signatures, as strings.
pub fn default_crawler_signatures() -> (r: Vec<String>)
    ensures
        views_of(r@) == default_signatures(),
{
    let words = [
        "https:", "http:", "Bot", "bot", "crawler", "spider", "compatible;", "subscriber", "Gwene",
        "Zapier", "Automattic", "WhatsApp", "curl", "scraper", "Wget", "Python", "Ruby", "Go",
        "Rome", "Jersey", "Emacs", "+collection@", "Slack", "Reeder", "Twitter", "requests",
        "Apache-", "perl", "uatools",
    ];
    let mut r: Vec<String> = Vec::new();
    let mut i: usize = 0;
    while i < 29
        invariant
            i <= 29,
            forall|t: int| 0 <= t < 29 ==> #[trigger] words@[t]@ == default_signatures()[t],
            r@.len() == i,
            views_of(r@) == default_signatures().subrange(0, i as int),
        decreases 29 - i,
    {
        let ghost before = r@;
        let w = words[i];
        assert(w@ == default_signatures()[i as int]);
        r.push(w.to_owned());
        assert(r@ == before.push(r@[i as int]));
        assert(views_of(r@) =~= views_of(before).push(r@[i as int]@));
        assert(views_of(r@) =~= default_signatures().subrange(0, i + 1));
        i += 1;
    }
    assert(default_signatures().subrange(0, 29) =~= default_signatures());
    r
}

/// `p` up to its first `?`, or the whole of `p` where it has none.
pub open spec fn without_query(p: Seq<char>) -> Seq<char> {
    let q = find_from(p, seq!['?'], 0);
    if q < 0 {
        p
    } else {
        p.subrange(0, q)
    }
}

/// The path cut at its first `?`.
pub fn strip_query(path: &String) -> (r: String)
    ensures
        r@ == without_query(path@),
{
    let p = chars_of(path.as_str());
    let q: Vec<char> = vec!['?'];
    assert(q@ =~= seq!['?']);
    match find(&p, &q, 0) {
        Some(i) => path.as_str().substring_char(0, i).to_owned(),
        None => path.clone(),
    }
}

/// Which records a run keeps: the policy flags and the user-agent
/// signatures that mark a crawler.
pub struct RecordFilter {
    pub config: Config,
    pub crawler_signatures: Vec<String>,
}

/// Whether a filter with flags `cfg` and crawler signatures `sigs` keeps `r`.
pub open spec fn keeps(cfg: Config, sigs: Seq<Seq<char>>, r: Record) -> bool {
    &&& cfg.include_errors || r.status == 200
    &&& cfg.include_media || !is_media(r.path@)
    &&& cfg.include_crawlers || !is_crawler_agent(r.user_agent@, sigs)
}

impl RecordFilter {
    pub open spec fn signatures(&self) -> Seq<Seq<char>> {
        views_of(self.crawler_signatures@)
    }

    /// A filter with the given flags and the default crawler signatures.
    pub fn new(config: Config) -> (r: RecordFilter)
        ensures
            r.config == config,
            r.signatures() == default_signatures(),
    {
        RecordFilter { config, crawler_signatures: default_crawler_signatures() }
    }

    /// Whether the record is kept: an error status only with errors included,
    /// a static asset only with media included, a crawler only with crawlers
    /// included.
    pub fn keep(&self, record: &Record) -> (r: bool)
        ensures
            r == keeps(self.config, self.signatures(), *record),
    {
        (self.config.include_errors || record.status == 200)
            && (self.config.include_media || !is_media_path(&record.path))
            && (self.config.include_crawlers || !is_crawler(&record.user_agent, &self.crawler_signatures))
    }
}

} // verus!
