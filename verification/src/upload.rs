use vstd::prelude::*;

use crate::error::ApiError;
use crate::strutil::str_eq;

verus! {

/// The table that a byte sequence parses to as CSV — every record, the
/// header line included — or `None` when the bytes are not a well-formed
/// CSV document.  The transport encoding itself is outside the core: only
/// this name for its result, and the semantic checks below, are.
pub uninterp spec fn csv_parse(bytes: Seq<u8>) -> Option<Seq<Seq<Seq<char>>>>;

/// Relies on csv's `Reader` (records mode, flexible, no header handling):
/// it yields every record of the document as a list of fields, and an error
/// for malformed CSV.  The result depends on the bytes alone.
#[verifier::external_body]
fn csv_records(data: &[u8]) -> (r: Result<Vec<Vec<String>>, ApiError>)
    ensures
        r matches Ok(v) ==> csv_parse(data@) == Some(v.deep_view()),
        r matches Err(e) ==> e == ApiError::InvalidCsv && csv_parse(data@) is None,
{
    let rdr = csv::ReaderBuilder::new().has_headers(false).flexible(true).from_reader(data);
    let mut out: Vec<Vec<String>> = Vec::new();
    for rec in rdr.into_records() {
        match rec {
            Ok(r) => out.push(r.iter().map(|f| f.to_string()).collect()),
            Err(_) => {
                return Err(ApiError::InvalidCsv);
            },
        }
    }
    Ok(out)
}

/// Whether a record is the required header row `player_id,score`.
pub open spec fn header_ok(h: Seq<Seq<char>>) -> bool {
    h.len() == 2 && h[0] == "player_id"@ && h[1] == "score"@
}

/// Parses an uploaded score table: the bytes must be well-formed CSV, the
/// first record must be the header `player_id,score`, and every further
/// record must have exactly two columns.  Returns the `(player_id, score
/// token)` pairs in upload order; tokens are validated downstream.
pub fn parse_score_rows(data: &[u8]) -> (r: Result<Vec<(String, String)>, ApiError>)
    ensures
        csv_parse(data@) is None ==> r == Err::<Vec<(String, String)>, ApiError>(
            ApiError::InvalidCsv,
        ),
        csv_parse(data@) matches Some(tb) ==> {
            &&& (tb.len() == 0 || !header_ok(tb[0])) ==> r == Err::<
                Vec<(String, String)>,
                ApiError,
            >(ApiError::InvalidCsvHeader)
            &&& (tb.len() > 0 && header_ok(tb[0]) && (exists|i: int|
                1 <= i < tb.len() && (#[trigger] tb[i]).len() != 2)) ==> r == Err::<
                Vec<(String, String)>,
                ApiError,
            >(ApiError::InvalidCsvShape)
            &&& (tb.len() > 0 && header_ok(tb[0]) && (forall|i: int|
                1 <= i < tb.len() ==> (#[trigger] tb[i]).len() == 2)) ==> (r matches Ok(rows) && {
                &&& rows@.len() == tb.len() - 1
                &&& forall|i: int|
                    0 <= i < rows@.len() ==> (#[trigger] rows@[i]).0@ == tb[i + 1][0] && rows@[i].1@
                        == tb[i + 1][1]
            })
        },
{
    proof {
        reveal_strlit("player_id");
        reveal_strlit("score");
    }
    let table = match csv_records(data) {
        Ok(t) => t,
        Err(e) => {
            return Err(e);
        },
    };
    let ghost tb = table.deep_view();
    if table.len() == 0 {
        return Err(ApiError::InvalidCsvHeader);
    }
    let header = &table[0];
    proof {
        assert(tb[0] == table@[0].deep_view());
    }
    if header.len() != 2 {
        proof {
            assert(tb[0].len() != 2);
        }
        return Err(ApiError::InvalidCsvHeader);
    }
    proof {
        assert(table@[0].deep_view()[0] == table@[0]@[0]@);
        assert(table@[0].deep_view()[1] == table@[0]@[1]@);
    }
    if !(str_eq(header[0].as_str(), "player_id") && str_eq(header[1].as_str(), "score")) {
        proof {
            assert(!header_ok(tb[0]));
        }
        return Err(ApiError::InvalidCsvHeader);
    }
    proof {
        assert(header_ok(tb[0]));
    }
    let n = table.len();
    let mut rows: Vec<(String, String)> = Vec::new();
    let mut i: usize = 1;
    while i < n
        invariant
            1 <= i <= n,
            n == table@.len(),
            tb == table.deep_view(),
            tb.len() == n,
            csv_parse(data@) == Some(tb),
            header_ok(tb[0]),
            rows@.len() == i - 1,
            forall|q: int| 1 <= q < i ==> (#[trigger] tb[q]).len() == 2,
            forall|q: int|
                0 <= q < rows@.len() ==> (#[trigger] rows@[q]).0@ == tb[q + 1][0] && rows@[q].1@
                    == tb[q + 1][1],
        decreases n - i,
    {
        let rec = &table[i];
        proof {
            assert(tb[i as int] == table@[i as int].deep_view());
        }
        if rec.len() != 2 {
            proof {
                assert((#[trigger] tb[i as int]).len() != 2);
            }
            return Err(ApiError::InvalidCsvShape);
        }
        proof {
            assert(table@[i as int].deep_view()[0] == table@[i as int]@[0]@);
            assert(table@[i as int].deep_view()[1] == table@[i as int]@[1]@);
        }
        rows.push((rec[0].clone(), rec[1].clone()));
        i = i + 1;
    }
    Ok(rows)
}

} // verus!
