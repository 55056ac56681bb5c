use vstd::prelude::*;
use crate::filter::{is_crawler_agent, is_media, strip_query, without_query, RecordFilter};
use crate::index::LogIndex;
use crate::parse::{digits_value, parse_line, split_line, timestamp_of, LineView};
use crate::record::{Config, Record, Timestamp};

verus! {

/// The pieces of `s` cut after every line feed, each with its terminator.
pub open spec fn pieces(s: Seq<char>) -> Seq<Seq<char>>
    decreases s.len(),
{
    if s.len() == 0 {
        Seq::empty()
    } else {
        let p = pieces(s.drop_last());
        if p.len() == 0 || p.last().len() == 0 || p.last().last() == '\n' {
            p.push(seq![s.last()])
        } else {
            p.update(p.len() - 1, p.last().push(s.last()))
        }
    }
}

/// A piece without its terminator: a line feed, or a carriage return and a
/// line feed.
pub open spec fn strip_terminator(p: Seq<char>) -> Seq<char> {
    if p.len() > 0 && p.last() == '\n' {
        let q = p.drop_last();
        if q.len() > 0 && q.last() == '\r' {
            q.drop_last()
        } else {
            q
        }
    } else {
        p
    }
}

/// The lines of a text.
pub open spec fn text_lines(s: Seq<char>) -> Seq<Seq<char>> {
    pieces(s).map_values(|p: Seq<char>| strip_terminator(p))
}

/// Relies on `str::lines`: the text cut after each `\n`, without the `\n`
/// or the `\r\n` that ends each line.
#[verifier::external_body]
fn lines_of<'a>(s: &'a str) -> (r: Vec<&'a str>)
    ensures
        r@.map_values(|l: &str| l@) == text_lines(s@),
{
    s.lines().collect()
}

/// The path under which a record is grouped.
pub open spec fn grouped_path(cfg: Config, p: Seq<char>) -> Seq<char> {
    if cfg.ignore_query_params {
        without_query(p)
    } else {
        p
    }
}

/// `r` is the record of the fields `f` and the instant `t`, with its path
/// grouped as `cfg` says.
pub open spec fn ingested_record(r: Record, f: LineView, t: (i64, i32), cfg: Config) -> bool {
    &&& r.ip@ == f.client
    &&& r.timestamp == (Timestamp { utc_seconds: t.0, offset_seconds: t.1 })
    &&& r.path@ == grouped_path(cfg, f.path)
    &&& r.status as int == digits_value(f.status)
    &&& r.referrer@ == f.referrer
    &&& r.user_agent@ == f.user_agent
}

/// Whether a line's record is kept: the line follows the grammar, its
/// timestamp can be read, and the filter keeps a record with its status, its
/// grouped path and its user agent.
pub open spec fn line_kept(line: Seq<char>, cfg: Config, sigs: Seq<Seq<char>>) -> bool {
    match split_line(line) {
        None => false,
        Some(f) => {
            &&& timestamp_of(f.timestamp) is Some
            &&& cfg.include_errors || digits_value(f.status) == 200
            &&& cfg.include_media || !is_media(grouped_path(cfg, f.path))
            &&& cfg.include_crawlers || !is_crawler_agent(f.user_agent, sigs)
        },
    }
}

/// `recs` are the records that `lines` yield under flags `cfg` and crawler
/// signatures `sigs`, in line order: each line that follows the grammar and
/// has a readable timestamp gives a record, with its path grouped, and the
/// filter keeps it or not.
pub open spec fn ingests(lines: Seq<Seq<char>>, cfg: Config, sigs: Seq<Seq<char>>, recs: Seq<Record>) -> bool
    decreases lines.len(),
{
    if lines.len() == 0 {
        recs.len() == 0
    } else {
        let l = lines.last();
        if line_kept(l, cfg, sigs) {
            let f = split_line(l)->0;
            let t = timestamp_of(f.timestamp)->0;
            recs.len() > 0 && ingested_record(recs.last(), f, t, cfg) && ingests(
                lines.drop_last(),
                cfg,
                sigs,
                recs.drop_last(),
            )
        } else {
            ingests(lines.drop_last(), cfg, sigs, recs)
        }
    }
}

/// The positions of the lines that do not follow the grammar or whose
/// timestamp cannot be read.
pub open spec fn malformed_lines(lines: Seq<Seq<char>>) -> Seq<int>
    decreases lines.len(),
{
    if lines.len() == 0 {
        Seq::empty()
    } else {
        let rest = malformed_lines(lines.drop_last());
        let bad = match split_line(lines.last()) {
            None => true,
            Some(f) => timestamp_of(f.timestamp) is None,
        };
        if bad {
            rest.push(lines.len() - 1)
        } else {
            rest
        }
    }
}

/// What reading one text gives: the index of the records kept, and the
/// positions of the lines that could not be read.
pub struct ParseOutcome {
    pub index: LogIndex,
    pub malformed: Vec<usize>,
}

/// Reads the lines in order into a fresh index: each line is parsed, its
/// path cut at `?` where the flags say so, and its record kept or not by the
/// filter. Lines that cannot be read are skipped and listed.
pub fn parse_lines(lines: &Vec<&str>, filter: &RecordFilter) -> (r: ParseOutcome)
    ensures
        r.index.wf(),
        ingests(lines@.map_values(|l: &str| l@), filter.config, filter.signatures(), r.index.records()),
        r.malformed@.map_values(|i: usize| i as int) == malformed_lines(lines@.map_values(|l: &str| l@)),
{
    let ghost all = lines@.map_values(|l: &str| l@);
    let ghost cfg = filter.config;
    let ghost sigs = filter.signatures();
    let mut index = LogIndex::new();
    let mut malformed: Vec<usize> = Vec::new();
    let mut i: usize = 0;
    while i < lines.len()
        invariant
            i <= lines@.len(),
            all == lines@.map_values(|l: &str| l@),
            cfg == filter.config,
            sigs == filter.signatures(),
            index.wf(),
            index.records().len() <= i,
            ingests(all.subrange(0, i as int), cfg, sigs, index.records()),
            malformed@.map_values(|j: usize| j as int) == malformed_lines(all.subrange(0, i as int)),
        decreases lines@.len() - i,
    {
        let ghost before = index.records();
        let ghost prefix = all.subrange(0, i + 1);
        assert(prefix.drop_last() =~= all.subrange(0, i as int));
        assert(prefix.last() == lines@[i as int]@);
        let ghost old_bad = malformed@;
        match parse_line(lines[i]) {
            None => {
                malformed.push(i);
                assert(malformed@.map_values(|j: usize| j as int) =~= old_bad.map_values(|j: usize| j as int).push(i as int));
            },
            Some(mut record) => {
                if filter.config.ignore_query_params {
                    record.path = strip_query(&record.path);
                }
                let kept = filter.keep(&record);
                proof {
                    let f = split_line(prefix.last())->0;
                    let t = timestamp_of(f.timestamp)->0;
                    assert(ingested_record(record, f, t, cfg));
                    assert(kept == line_kept(prefix.last(), cfg, sigs));
                }
                if kept {
                    index.insert(record);
                    assert(index.records().drop_last() =~= before);
                }
            },
        }
        i += 1;
    }
    assert(all.subrange(0, i as int) =~= all);
    ParseOutcome { index, malformed }
}

/// Reads a whole text: its lines, in order, through [`parse_lines`].
pub fn parse_text(contents: &str, filter: &RecordFilter) -> (r: ParseOutcome)
    ensures
        r.index.wf(),
        ingests(text_lines(contents@), filter.config, filter.signatures(), r.index.records()),
        r.malformed@.map_values(|i: usize| i as int) == malformed_lines(text_lines(contents@)),
{
    let lines = lines_of(contents);
    parse_lines(&lines, filter)
}

/// Reads a whole text with the default crawler signatures and returns the
/// index of the records kept.
pub fn parse_string(contents: String, config: Config) -> (r: LogIndex)
    ensures
        r.wf(),
        ingests(text_lines(contents@), config, crate::filter::default_signatures(), r.records()),
{
    let filter = RecordFilter::new(config);
    parse_text(contents.as_str(), &filter).index
}

/// Why one source could not be read.
pub struct SourceError {
    pub location: String,
    pub message: String,
}

/// Why a run gives no report.
pub enum IngestError {
    /// Every source that was asked for failed.
    AllSourcesFailed,
}

/// What a run over several sources gives: one index of all the records that
/// were read, and the positions of the sources that failed.
pub struct Combined {
    pub index: LogIndex,
    pub failed: Vec<usize>,
}

/// The records of the sources that were read, in the order of the list.
pub open spec fn records_of_results(results: Seq<Result<LogIndex, SourceError>>) -> Seq<Record>
    decreases results.len(),
{
    if results.len() == 0 {
        Seq::empty()
    } else {
        let rest = records_of_results(results.drop_last());
        match results.last() {
            Ok(ix) => rest + ix.records(),
            Err(_) => rest,
        }
    }
}

/// The positions of the sources that failed.
pub open spec fn failed_positions(results: Seq<Result<LogIndex, SourceError>>) -> Seq<int>
    decreases results.len(),
{
    if results.len() == 0 {
        Seq::empty()
    } else {
        let rest = failed_positions(results.drop_last());
        if results.last() is Err {
            rest.push(results.len() - 1)
        } else {
            rest
        }
    }
}

/// Folds the per-source results, in the order given, into one index: each
/// index read is merged in, each failure is listed. Fails only where there
/// were sources and every one of them failed.
pub fn combine(results: Vec<Result<LogIndex, SourceError>>) -> (r: Result<Combined, IngestError>)
    requires
        forall|i: int| 0 <= i < results@.len() && results@[i] is Ok ==> (#[trigger] results@[i])->Ok_0.wf(),
        records_of_results(results@).len() <= usize::MAX,
    ensures
        match r {
            Ok(c) => {
                &&& c.index.wf()
                &&& c.index.records() == records_of_results(results@)
                &&& c.failed@.map_values(|i: usize| i as int) == failed_positions(results@)
                &&& (results@.len() == 0 || exists|i: int| 0 <= i < results@.len() && #[trigger] results@[i] is Ok)
            },
            Err(IngestError::AllSourcesFailed) => results@.len() > 0 && forall|i: int|
                0 <= i < results@.len() ==> #[trigger] results@[i] is Err,
        },
{
    let ghost all = results@;
    let n = results.len();
    let mut index = LogIndex::new();
    let mut failed: Vec<usize> = Vec::new();
    let mut any_ok = false;
    let mut i: usize = 0;
    for item in it: results
        invariant
            i == it.index(),
            it.seq() == all,
            n == all.len(),
            forall|j: int| 0 <= j < all.len() && all[j] is Ok ==> (#[trigger] all[j])->Ok_0.wf(),
            records_of_results(all).len() <= usize::MAX,
            index.wf(),
            index.records() == records_of_results(all.subrange(0, i as int)),
            failed@.map_values(|j: usize| j as int) == failed_positions(all.subrange(0, i as int)),
            any_ok == exists|j: int| 0 <= j < i && #[trigger] all[j] is Ok,
    {
        let ghost prefix = all.subrange(0, i + 1);
        assert(prefix.drop_last() =~= all.subrange(0, i as int));
        assert(prefix.last() == all[i as int]);
        proof {
            lemma_records_prefix_len(all, i + 1);
        }
        let ghost old_failed = failed@;
        match item {
            Ok(part) => {
                index.merge(part);
                any_ok = true;
            },
            Err(_) => {
                failed.push(i);
                assert(failed@.map_values(|j: usize| j as int) =~= old_failed.map_values(|j: usize| j as int).push(i as int));
            },
        }
        i += 1;
    }
    assert(all.subrange(0, n as int) =~= all);
    if n > 0 && !any_ok {
        return Err(IngestError::AllSourcesFailed);
    }
    Ok(Combined { index, failed })
}

proof fn lemma_records_prefix_len(all: Seq<Result<LogIndex, SourceError>>, k: int)
    requires
        0 <= k <= all.len(),
    ensures
        records_of_results(all.subrange(0, k)).len() <= records_of_results(all).len(),
    decreases all.len() - k,
{
    if k < all.len() {
        lemma_records_prefix_len(all, k + 1);
        let p = all.subrange(0, k + 1);
        assert(p.drop_last() =~= all.subrange(0, k));
    } else {
        assert(all.subrange(0, k) =~= all);
    }
}

} // verus!
