//! What an operator sees and declares.
use crate::api::{refused, ApiError, Refusal};
use crate::collection::figures::{adopted, words, CollectionStats};
use crate::collection::Collection;
use crate::config::Config;
use crate::text::{number, push_number, quote, quoted};
use vstd::prelude::*;
use vstd::string::StringExecFns;

verus! {

/// One line of the exposition: a figure of a collection.
pub open spec fn line(metric: Seq<char>, name: Seq<char>, value: Seq<char>) -> Seq<char> {
    metric + "{collection=\""@ + name + "\"} "@ + value + "\n"@
}

/// The lines of a collection, with the share of moves that were fast as text.
pub open spec fn lines(s: CollectionStats, ratio: Seq<char>) -> Seq<char> {
    let n = s.name@;
    line("netcluster_devices"@, n, number(s.devices as int)) + line(
        "netcluster_reports_total"@,
        n,
        number(s.ingested as int),
    ) + line("netcluster_queries_total"@, n, number(s.queries as int)) + line(
        "netcluster_expired_total"@,
        n,
        number(s.expired as int),
    ) + line("netcluster_memory_bytes"@, n, number(s.memory_bytes as int)) + line(
        "netcluster_fast_move_ratio"@,
        n,
        ratio,
    ) + line(
        "netcluster_snapshot_last_success_timestamp"@,
        n,
        number(s.last_snapshot_ms as int / 1000),
    ) + line("netcluster_snapshot_bytes"@, n, number(s.last_snapshot_bytes as int)) + line(
        "netcluster_snapshot_failures_total"@,
        n,
        number(s.snapshot_failures as int),
    ) + line("netcluster_restored_devices"@, n, number(s.restored as int))
}

/// The lines of the first `k` collections.
pub open spec fn all_lines(v: Seq<(CollectionStats, String)>, k: int) -> Seq<char>
    decreases k,
{
    if k <= 0 {
        seq![]
    } else {
        all_lines(v, k - 1) + lines(v[k - 1].0, v[k - 1].1@)
    }
}

fn push_line(s: &mut String, metric: &str, name: &str, value: &str)
    ensures
        final(s)@ == old(s)@ + line(metric@, name@, value@),
{
    let ghost was = s@;
    s.append(metric);
    s.append("{collection=\"");
    s.append(name);
    s.append("\"} ");
    s.append(value);
    s.append("\n");
    proof {
        assert(s@ =~= was + line(metric@, name@, value@));
    }
}

fn figure(n: u64) -> (s: String)
    ensures
        s@ == number(n as int),
{
    let mut s = String::new();
    push_number(&mut s, n);
    proof {
        assert(s@ =~= number(n as int));
    }
    s
}

fn push_lines(out: &mut String, s: &CollectionStats, ratio: &str)
    ensures
        final(out)@ == old(out)@ + lines(*s, ratio@),
{
    let ghost was = out@;
    let n = s.name.as_str();
    push_line(out, "netcluster_devices", n, figure(s.devices as u64).as_str());
    push_line(out, "netcluster_reports_total", n, figure(s.ingested).as_str());
    push_line(out, "netcluster_queries_total", n, figure(s.queries).as_str());
    push_line(out, "netcluster_expired_total", n, figure(s.expired).as_str());
    push_line(out, "netcluster_memory_bytes", n, figure(s.memory_bytes as u64).as_str());
    push_line(out, "netcluster_fast_move_ratio", n, ratio);
    push_line(
        out,
        "netcluster_snapshot_last_success_timestamp",
        n,
        figure(s.last_snapshot_ms / 1000).as_str(),
    );
    push_line(out, "netcluster_snapshot_bytes", n, figure(s.last_snapshot_bytes).as_str());
    push_line(out, "netcluster_snapshot_failures_total", n, figure(s.snapshot_failures).as_str());
    push_line(out, "netcluster_restored_devices", n, figure(s.restored).as_str());
    proof {
        assert(out@ =~= was + lines(*s, ratio@));
    }
}

/// The figures of all collections as Prometheus text exposition.
pub fn metrics_text(v: &Vec<(CollectionStats, String)>, requests: u64) -> (s: String)
    ensures
        s@ == "# HELP netcluster_devices Devices currently in the index\n"@
            + "# TYPE netcluster_devices gauge\n"@ + all_lines(v@, v@.len() as int)
            + "netcluster_requests_total "@ + number(requests as int) + "\n"@,
{
    let mut out = String::from_str("# HELP netcluster_devices Devices currently in the index\n");
    out.append("# TYPE netcluster_devices gauge\n");
    let ghost head = out@;
    let mut i: usize = 0;
    proof {
        assert(out@ =~= head + all_lines(v@, 0));
    }
    while i < v.len()
        invariant
            i <= v@.len(),
            out@ == head + all_lines(v@, i as int),
        decreases v@.len() - i,
    {
        push_lines(&mut out, &v[i].0, v[i].1.as_str());
        proof {
            assert(out@ =~= head + all_lines(v@, i + 1));
        }
        i = i + 1;
    }
    out.append("netcluster_requests_total ");
    push_number(&mut out, requests);
    out.append("\n");
    out
}

/// Why a declared configuration is refused, if it is: its geometry, or its filters.
pub fn check_config(cfg: &Config) -> (r: Option<ApiError>)
    ensures
        r is None <==> cfg.acceptable(),
        r is None <==> cfg.max_zoom <= 20 && cfg.radius > 0 && cfg.extent > 0 && cfg.resolves(),
        r matches Some(e) ==> {
            &&& e.status == 400
            &&& cfg.max_zoom > 20 ==> e.refusal() == refused(
                "max_zoom must be <= 20"@,
                "bad_request"@,
            )
            &&& cfg.max_zoom <= 20 && (cfg.radius == 0 || cfg.extent == 0) ==> e.refusal()
                == refused("radius and extent must be positive"@, "bad_request"@)
            &&& cfg.max_zoom <= 20 && cfg.radius > 0 && cfg.extent > 0 ==> e.code@ == "bad_filters"@ && cfg.filters_faulty(e.message@)
        },
{
    match cfg.refusal() {
        None => None,
        Some((t, code)) => Some(ApiError::bad(t).code(code)),
    }
}

/// Why a live collection cannot take on another declaration.
pub open spec fn conflict_refusal(name: Seq<char>, field: Seq<char>) -> Refusal {
    Refusal {
        status: 409,
        message: "collection "@ + quoted(name) + " already exists with a different "@ + field
            + "; drop it or use another name"@,
        code: "config_conflict"@,
    }
}

/// Declare a collection that exists once more.
///
/// Idempotent for the same declaration; a conflict, naming the field, where the index would have
/// to be built otherwise. Silently keeping the old one would mean two deployments disagreeing
/// about what a cluster means while both believe they configured it. The two limits that the
/// index does not depend on are adopted, and what moved is named. A conflict adopts nothing.
pub fn redeclare(c: &mut Collection, cfg: &Config) -> (r: Result<Vec<&'static str>, ApiError>)
    ensures
        old(c).sound() ==> final(c).sound(),
        old(c).agrees() ==> final(c).agrees(),
        match r {
            Ok(v) => {
                &&& old(c).config.conflict(*cfg) is None
                &&& words(v@) == adopted(*old(c), *cfg)
                &&& *final(c) == (Collection {
                    ttl: cfg.ttl_seconds,
                    props_limit: cfg.max_props_bytes,
                    ..*old(c)
                })
            },
            Err(e) => {
                &&& *final(c) == *old(c)
                &&& old(c).config.conflict(*cfg) is Some
                &&& e.refusal() == conflict_refusal(
                    old(c).name@,
                    old(c).config.conflict(*cfg)->0,
                )
            },
        },
{
    match c.config.frozen_conflict(cfg) {
        Some(field) => {
            let mut t = String::from_str("collection ");
            t.append(quote(c.name.as_str()).as_str());
            t.append(" already exists with a different ");
            t.append(field);
            t.append("; drop it or use another name");
            Err(ApiError::conflict(t).code("config_conflict"))
        },
        None => Ok(c.adopt(cfg)),
    }
}

} // verus!
