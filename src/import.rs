//! Settings and bookkeeping of the bulk importers, and label-list parsing.
use vstd::prelude::*;

use crate::graph::labels_view;
use crate::index::{entry_of, names_unique, set_entry};
use crate::text::{chars_of, string_of, trim_chars, trim_spec};

verus! {

/// Counters and messages gathered during an import.
#[derive(Debug)]
pub struct ImportStats {
    pub nodes_imported: usize,
    pub edges_imported: usize,
    pub errors: Vec<String>,
    pub duration_ms: u64,
    pub node_id_map: Vec<(String, String)>,
}

/// A point in time on the monotonic clock.
#[verifier::external_type_specification]
#[verifier::external_body]
pub struct ExInstant(std::time::Instant);

/// Relies on std::time::Instant::now: the current monotonic time.
#[verifier::external_body]
fn now() -> (r: std::time::Instant) {
    std::time::Instant::now()
}

/// Relies on Instant::elapsed and Duration::as_millis: the milliseconds since
/// `start`, cut to 64 bits.
#[verifier::external_body]
fn elapsed_ms(start: &std::time::Instant) -> (r: u64) {
    start.elapsed().as_millis() as u64
}

impl ImportStats {
    pub fn new() -> (r: ImportStats)
        ensures
            r.nodes_imported == 0,
            r.edges_imported == 0,
            r.errors@.len() == 0,
            r.duration_ms == 0,
            r.node_id_map@.len() == 0,
    {
        ImportStats { nodes_imported: 0, edges_imported: 0, errors: Vec::new(), duration_ms: 0, node_id_map: Vec::new() }
    }

    pub fn start_timer(&mut self) -> (r: std::time::Instant)
        ensures
            *final(self) == *old(self),
    {
        now()
    }

    /// Records the time elapsed since `start`.
    pub fn stop_timer(&mut self, start: std::time::Instant)
        ensures
            final(self).nodes_imported == old(self).nodes_imported,
            final(self).edges_imported == old(self).edges_imported,
            final(self).errors == old(self).errors,
            final(self).node_id_map == old(self).node_id_map,
    {
        self.duration_ms = elapsed_ms(&start);
    }

    pub fn add_error(&mut self, error: String)
        ensures
            final(self).errors@ == old(self).errors@.push(error),
            final(self).nodes_imported == old(self).nodes_imported,
            final(self).edges_imported == old(self).edges_imported,
            final(self).duration_ms == old(self).duration_ms,
            final(self).node_id_map == old(self).node_id_map,
    {
        self.errors.push(error);
    }

    /// Counts a node and remembers which internal id an external id became.
    pub fn record_node(&mut self, external_id: String, internal_id: String)
        requires
            old(self).nodes_imported < usize::MAX,
            names_unique(old(self).node_id_map@),
        ensures
            final(self).nodes_imported == old(self).nodes_imported + 1,
            final(self).edges_imported == old(self).edges_imported,
            final(self).errors == old(self).errors,
            final(self).duration_ms == old(self).duration_ms,
            names_unique(final(self).node_id_map@),
            entry_of(final(self).node_id_map@, external_id@) == Some(internal_id),
            forall|k: Seq<char>| k != external_id@ ==> entry_of(final(self).node_id_map@, k) == entry_of(old(self).node_id_map@, k),
    {
        self.nodes_imported = self.nodes_imported + 1;
        set_entry(&mut self.node_id_map, external_id, internal_id);
    }

    pub fn record_edge(&mut self)
        requires
            old(self).edges_imported < usize::MAX,
        ensures
            final(self).edges_imported == old(self).edges_imported + 1,
            final(self).nodes_imported == old(self).nodes_imported,
            final(self).errors == old(self).errors,
            final(self).duration_ms == old(self).duration_ms,
            final(self).node_id_map == old(self).node_id_map,
    {
        self.edges_imported = self.edges_imported + 1;
    }
}

/// The default import settings.
pub open spec fn default_import_config() -> ImportConfig {
    ImportConfig { batch_size: 1000, flush_interval: 5000, skip_invalid: true, max_errors: 100 }
}

/// Batching and error tolerance of an import.
#[derive(Debug, Clone, Copy, PartialEq, Eq, Structural)]
pub struct ImportConfig {
    pub batch_size: usize,
    pub flush_interval: usize,
    pub skip_invalid: bool,
    pub max_errors: usize,
}

impl ImportConfig {
    /// Batches of 1000, flush every 5000, skip invalid rows, stop after 100
    /// errors.
    pub fn new() -> (r: ImportConfig)
        ensures
            r == default_import_config(),
    {
        ImportConfig { batch_size: 1000, flush_interval: 5000, skip_invalid: true, max_errors: 100 }
    }

    pub fn with_batch_size(self, size: usize) -> (r: ImportConfig)
        ensures
            r == (ImportConfig { batch_size: size, ..self }),
    {
        ImportConfig { batch_size: size, ..self }
    }

    pub fn with_flush_interval(self, interval: usize) -> (r: ImportConfig)
        ensures
            r == (ImportConfig { flush_interval: interval, ..self }),
    {
        ImportConfig { flush_interval: interval, ..self }
    }

    pub fn with_skip_invalid(self, skip: bool) -> (r: ImportConfig)
        ensures
            r == (ImportConfig { skip_invalid: skip, ..self }),
    {
        ImportConfig { skip_invalid: skip, ..self }
    }

    pub fn with_max_errors(self, max: usize) -> (r: ImportConfig)
        ensures
            r == (ImportConfig { max_errors: max, ..self }),
    {
        ImportConfig { max_errors: max, ..self }
    }
}

/// Reads nodes and edges from delimited text.
#[derive(Debug)]
pub struct CsvImporter {
    pub config: ImportConfig,
    pub delimiter: u8,
    pub has_header: bool,
    pub label_separator: char,
}

/// The pieces of `s` between occurrences of `sep`.
pub open spec fn split_spec(s: Seq<char>, sep: char) -> Seq<Seq<char>>
    decreases s.len(),
{
    if s.len() == 0 {
        seq![Seq::empty()]
    } else {
        let rest = split_spec(s.drop_last(), sep);
        if s.last() == sep {
            rest.push(Seq::empty())
        } else {
            rest.update(rest.len() - 1, rest.last().push(s.last()))
        }
    }
}

/// The labels in a label field: the pieces between separators, trimmed, with
/// empty pieces dropped.
pub open spec fn labels_spec(s: Seq<char>, sep: char) -> Seq<Seq<char>> {
    split_spec(s, sep).map_values(|p: Seq<char>| trim_spec(p)).filter(|p: Seq<char>| p.len() > 0)
}

impl CsvImporter {
    /// Comma-delimited with a header row; labels separated by `;`.
    pub fn new() -> (r: CsvImporter)
        ensures
            r.config == default_import_config(),
            r.delimiter == 44,
            r.has_header,
            r.label_separator == ';',
    {
        CsvImporter { config: ImportConfig::new(), delimiter: 44, has_header: true, label_separator: ';' }
    }

    pub fn with_config(self, config: ImportConfig) -> (r: CsvImporter)
        ensures
            r == (CsvImporter { config, ..self }),
    {
        CsvImporter { config, ..self }
    }

    pub fn with_delimiter(self, delimiter: u8) -> (r: CsvImporter)
        ensures
            r == (CsvImporter { delimiter, ..self }),
    {
        CsvImporter { delimiter, ..self }
    }

    pub fn with_header(self, has_header: bool) -> (r: CsvImporter)
        ensures
            r == (CsvImporter { has_header, ..self }),
    {
        CsvImporter { has_header, ..self }
    }

    pub fn with_label_separator(self, separator: char) -> (r: CsvImporter)
        ensures
            r == (CsvImporter { label_separator: separator, ..self }),
    {
        CsvImporter { label_separator: separator, ..self }
    }

    /// Splits a label field at the separator, trims each piece and drops
    /// empty ones.
    pub fn parse_labels(&self, labels_str: &str) -> (r: Vec<String>)
        ensures
            labels_view(r@) == labels_spec(labels_str@, self.label_separator),
    {
        let cs = chars_of(labels_str);
        let sep = self.label_separator;
        let ghost f = |p: Seq<char>| p.len() > 0;
        let ghost g = |p: Seq<char>| trim_spec(p);
        let mut out: Vec<String> = Vec::new();
        let mut piece: Vec<char> = Vec::new();
        let mut i: usize = 0;
        while i < cs.len()
            invariant
                i <= cs@.len(),
                split_spec(cs@.subrange(0, i as int), sep).len() >= 1,
                piece@ == split_spec(cs@.subrange(0, i as int), sep).last(),
                labels_view(out@) == split_spec(cs@.subrange(0, i as int), sep).drop_last().map_values(g).filter(f),
                f == (|p: Seq<char>| p.len() > 0),
                g == (|p: Seq<char>| trim_spec(p)),
            decreases cs.len() - i,
        {
            let ghost pre = cs@.subrange(0, i as int);
            let ghost sp = split_spec(pre, sep);
            let ghost nxt = cs@.subrange(0, i + 1);
            proof {
                assert(nxt.drop_last() =~= pre);
                assert(nxt.last() == cs@[i as int]);
            }
            if cs[i] == sep {
                let t = trim_chars(&piece);
                let ghost before = out@;
                if t.len() > 0 {
                    out.push(string_of(t.as_slice()));
                }
                proof {
                    let ns = split_spec(nxt, sep);
                    assert(ns == sp.push(Seq::empty()));
                    assert(ns.drop_last() =~= sp);
                    assert(sp =~= sp.drop_last().push(piece@));
                    assert(sp.drop_last().push(piece@).map_values(g) =~= sp.drop_last().map_values(g).push(g(piece@)));
                    lemma_filter_push(sp.drop_last().map_values(g), trim_spec(piece@), f);
                    assert(labels_view(out@) =~= if t@.len() > 0 { labels_view(before).push(t@) } else { labels_view(before) });
                }
                piece = Vec::new();
            } else {
                piece.push(cs[i]);
                proof {
                    let ns = split_spec(nxt, sep);
                    assert(ns.drop_last() =~= sp.drop_last());
                }
            }
            i = i + 1;
        }
        let t = trim_chars(&piece);
        let ghost before = out@;
        if t.len() > 0 {
            out.push(string_of(t.as_slice()));
        }
        proof {
            let sp = split_spec(cs@.subrange(0, cs@.len() as int), sep);
            assert(cs@.subrange(0, cs@.len() as int) =~= cs@);
            assert(sp =~= sp.drop_last().push(piece@));
            assert(sp.drop_last().push(piece@).map_values(g) =~= sp.drop_last().map_values(g).push(g(piece@)));
            lemma_filter_push(sp.drop_last().map_values(g), trim_spec(piece@), f);
            assert(labels_view(out@) =~= if t@.len() > 0 { labels_view(before).push(t@) } else { labels_view(before) });
        }
        out
    }
}

proof fn lemma_filter_push(s: Seq<Seq<char>>, x: Seq<char>, f: spec_fn(Seq<char>) -> bool)
    ensures
        s.push(x).filter(f) == if f(x) { s.filter(f).push(x) } else { s.filter(f) },
{
    reveal_with_fuel(Seq::filter, 1);
    assert(s.push(x).drop_last() =~= s);
}

/// Reads nodes and edges from JSON documents.
#[derive(Debug)]
pub struct JsonImporter {
    pub config: ImportConfig,
}

impl JsonImporter {
    pub fn new() -> (r: JsonImporter)
        ensures
            r.config == default_import_config(),
    {
        JsonImporter { config: ImportConfig::new() }
    }

    pub fn with_config(self, config: ImportConfig) -> (r: JsonImporter)
        ensures
            r.config == config,
    {
        JsonImporter { config }
    }
}

} // verus!
