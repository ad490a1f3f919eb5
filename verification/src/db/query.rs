//! The SQL of a search over the table-backed store.
use vstd::prelude::*;
use vstd::string::*;
use crate::db::trigram::{build_trigram_query, generate_trigrams_lowercase, trigram_query_spec};
use crate::filter::{CmpOp, SizeFilter, ModifiedFilter, MimeFilter};
use crate::index::trigram::{sorted_listing, source_trigram_set, string_views, utf8_len};
use crate::text::{lower_chars, lower_str_chars, str_chars, string_from_chars, append_str, append_chars, dec_digits, dec_int, dec_u128, dec_i128};

verus! {

broadcast use vstd::string::group_string_axioms;

/// A query and its positional parameters, in order.
pub struct SearchQuery {
    pub sql: String,
    pub params: Vec<String>,
}

/// The `LIKE` parameter a pattern is compared with: the pattern (lower-cased when case is
/// ignored) between `%%` marks, after a `/` for a basename search.
pub open spec fn like_param(p: Seq<char>, ignore_case: bool, basename: bool) -> Seq<char> {
    let q = if ignore_case { lower_chars(p) } else { p };
    (if basename { "%%/"@ } else { "%%"@ }) + q + "%%"@
}

/// The condition one pattern adds.
pub open spec fn query_part(p: Seq<char>, ignore_case: bool, basename: bool, regex: bool) -> Seq<char> {
    if regex {
        "id IN (SELECT id FROM files WHERE regexp_matches(full_path, ?))"@
    } else {
        match trigram_query_spec(p, ignore_case, basename) {
            Some(tq) => "id IN ("@ + tq + ")"@,
            None => if ignore_case {
                "id IN (SELECT id FROM files WHERE LOWER(full_path) LIKE LOWER(?))"@
            } else {
                "id IN (SELECT id FROM files WHERE full_path LIKE ?)"@
            },
        }
    }
}

/// The parameters one pattern adds: the pattern itself for a regular expression; the
/// trigrams of the lower-cased pattern in sorted order and then its `LIKE` parameter for
/// a trigram query; otherwise the `LIKE` parameter alone.
pub open spec fn param_block_ok(block: Seq<Seq<char>>, p: Seq<char>, ignore_case: bool, basename: bool, regex: bool) -> bool {
    if regex {
        block == seq![p]
    } else if trigram_query_spec(p, ignore_case, basename) is Some {
        exists|l: Seq<Seq<char>>|
            sorted_listing(l, source_trigram_set(lower_chars(p), utf8_len(lower_chars(p))))
                && block == l.push(like_param(p, ignore_case, basename))
    } else {
        block == seq![like_param(p, ignore_case, basename)]
    }
}

/// The conditions of the patterns, in order.
pub open spec fn query_parts(ps: Seq<Seq<char>>, ignore_case: bool, basename: bool, regex: bool) -> Seq<Seq<char>> {
    ps.map_values(|p: Seq<char>| query_part(p, ignore_case, basename, regex))
}

/// Texts joined by ` OR `.
pub open spec fn join_or(parts: Seq<Seq<char>>) -> Seq<char>
    decreases parts.len(),
{
    if parts.len() == 0 {
        Seq::empty()
    } else if parts.len() == 1 {
        parts[0]
    } else {
        join_or(parts.drop_last()) + " OR "@ + parts.last()
    }
}

/// The pattern conditions: the one condition alone, else all of them in parentheses
/// joined by ` OR `.
pub open spec fn where_base(parts: Seq<Seq<char>>) -> Seq<char> {
    if parts.len() == 1 {
        parts[0]
    } else {
        "("@ + join_or(parts) + ")"@
    }
}

/// The blocks of parameters, one after another.
pub open spec fn flatten_blocks(blocks: Seq<Seq<Seq<char>>>) -> Seq<Seq<char>>
    decreases blocks.len(),
{
    if blocks.len() == 0 {
        Seq::empty()
    } else {
        flatten_blocks(blocks.drop_last()) + blocks.last()
    }
}

/// The operator of a size comparison.
pub open spec fn size_op(op: CmpOp) -> Seq<char> {
    match op {
        CmpOp::Eq => "="@,
        CmpOp::Ge => ">="@,
        CmpOp::Le => "<="@,
    }
}

/// The operator of an mtime comparison against the cutoff `now - n`: `Ge` (modified
/// within the last `n` seconds) keeps mtimes at or after the cutoff, `Le` those at or
/// before it, as the search filter does.
pub open spec fn mtime_op(op: CmpOp) -> Seq<char> {
    match op {
        CmpOp::Eq => "="@,
        CmpOp::Ge => ">="@,
        CmpOp::Le => "<="@,
    }
}

/// `s` with each `*` written as `%`.
pub open spec fn stars_to_percent(s: Seq<char>) -> Seq<char> {
    s.map_values(|c: char| if c == '*' { '%' } else { c })
}

/// The condition a size filter adds.
pub open spec fn size_clause(size: Option<&SizeFilter>) -> Seq<char> {
    match size {
        Some(sf) => " AND size "@ + size_op(sf.operator) + " "@ + dec_digits(sf.bytes as nat),
        None => Seq::empty(),
    }
}

/// The condition a modification-time filter adds at time `now`.
pub open spec fn mtime_clause(modified: Option<&ModifiedFilter>, now: i64) -> Seq<char> {
    match modified {
        Some(mf) => " AND mtime "@ + mtime_op(mf.operator) + " "@ + dec_int(now - mf.seconds),
        None => Seq::empty(),
    }
}

/// The condition a MIME filter adds.
pub open spec fn mime_clause(mime: Option<&MimeFilter>) -> Seq<char> {
    match mime {
        Some(m) => if m.is_glob {
            " AND mime_type LIKE '"@ + stars_to_percent(m.pattern@) + "'"@
        } else {
            " AND mime_type = '"@ + m.pattern@ + "'"@
        },
        None => Seq::empty(),
    }
}

/// The conditions the filters add at time `now`.
pub open spec fn filter_clauses(
    size: Option<&SizeFilter>,
    modified: Option<&ModifiedFilter>,
    mime: Option<&MimeFilter>,
    existing: bool,
    now: i64,
) -> Seq<char> {
    size_clause(size) + mtime_clause(modified, now) + mime_clause(mime) + (if existing {
        " AND 1=1 /* existing check done in Rust */"@
    } else {
        Seq::empty()
    })
}

/// The whole SQL of a search at time `now`.
pub open spec fn query_sql(
    ps: Seq<Seq<char>>,
    ignore_case: bool,
    basename: bool,
    regex: bool,
    existing: bool,
    limit: Option<usize>,
    count: bool,
    size: Option<&SizeFilter>,
    modified: Option<&ModifiedFilter>,
    mime: Option<&MimeFilter>,
    now: i64,
) -> Seq<char> {
    (if count { "SELECT COUNT(*) FROM files"@ } else { "SELECT id, full_path, size, mtime, mode, mime_type FROM files"@ })
        + " WHERE "@ + where_base(query_parts(ps, ignore_case, basename, regex)) + filter_clauses(
        size,
        modified,
        mime,
        existing,
        now,
    ) + (match limit {
        Some(n) => if count { Seq::empty() } else { " LIMIT "@ + dec_digits(n as nat) },
        None => Seq::empty(),
    })
}

fn like_param_chars(pattern: &str, ignore_case: bool, basename: bool) -> (r: Vec<char>)
    ensures
        r@ == like_param(pattern@, ignore_case, basename),
{
    let mut v: Vec<char> = Vec::new();
    if basename {
        append_str(&mut v, "%%/");
    } else {
        append_str(&mut v, "%%");
    }
    if ignore_case {
        append_chars(&mut v, lower_str_chars(pattern).as_slice());
    } else {
        append_str(&mut v, pattern);
    }
    append_str(&mut v, "%%");
    v
}

/// The parts and parameters of the patterns.
fn pattern_parts(patterns: &[String], ignore_case: bool, basename: bool, regex: bool) -> (r: (Vec<Vec<char>>, Vec<String>))
    ensures
        r.0@.map_values(|v: Vec<char>| v@) == query_parts(string_views(patterns@), ignore_case, basename, regex),
        exists|blocks: Seq<Seq<Seq<char>>>|
            blocks.len() == patterns@.len() && (forall|i: int| 0 <= i < blocks.len() ==> param_block_ok(
                #[trigger] blocks[i],
                patterns@[i]@,
                ignore_case,
                basename,
                regex,
            )) && string_views(r.1@) == flatten_blocks(blocks),
{
    let ghost views = string_views(patterns@);
    let mut parts: Vec<Vec<char>> = Vec::new();
    let mut params: Vec<String> = Vec::new();
    let ghost mut blocks: Seq<Seq<Seq<char>>> = Seq::empty();
    let mut i: usize = 0;
    while i < patterns.len()
        invariant
            0 <= i <= patterns@.len(),
            views == string_views(patterns@),
            parts@.map_values(|v: Vec<char>| v@) == query_parts(views.take(i as int), ignore_case, basename, regex),
            blocks.len() == i,
            forall|q: int| 0 <= q < i ==> param_block_ok(#[trigger] blocks[q], patterns@[q]@, ignore_case, basename, regex),
            string_views(params@) == flatten_blocks(blocks),
        decreases patterns@.len() - i,
    {
        let pattern = patterns[i].as_str();
        let ghost before_params = string_views(params@);
        let ghost block: Seq<Seq<char>>;
        let part: Vec<char>;
        if regex {
            let mut v: Vec<char> = Vec::new();
            append_str(&mut v, "id IN (SELECT id FROM files WHERE regexp_matches(full_path, ?))");
            part = v;
            params.push(patterns[i].clone());
            proof {
                block = seq![pattern@];
                assert(string_views(params@) =~= before_params + block);
            }
        } else {
            match build_trigram_query(pattern, ignore_case, basename) {
                Some(tq) => {
                    let mut v: Vec<char> = Vec::new();
                    append_str(&mut v, "id IN (");
                    append_str(&mut v, tq.as_str());
                    append_str(&mut v, ")");
                    part = v;
                    let tris = generate_trigrams_lowercase(pattern);
                    let mut k: usize = 0;
                    while k < tris.len()
                        invariant
                            0 <= k <= tris@.len(),
                            string_views(params@) == before_params + string_views(tris@).take(k as int),
                        decreases tris@.len() - k,
                    {
                        let ghost pre = string_views(params@);
                        params.push(tris[k].clone());
                        proof {
                            assert(string_views(params@) =~= pre.push(tris@[k as int]@));
                            assert(string_views(tris@).take(k + 1) =~= string_views(tris@).take(k as int).push(tris@[k as int]@));
                        }
                        k = k + 1;
                    }
                    let like = like_param_chars(pattern, ignore_case, basename);
                    let ghost pre2 = string_views(params@);
                    let ls = string_from_chars(like.as_slice());
                    params.push(ls);
                    proof {
                        assert(string_views(tris@).take(tris@.len() as int) =~= string_views(tris@));
                        block = string_views(tris@).push(like_param(pattern@, ignore_case, basename));
                        assert(string_views(params@) =~= pre2.push(ls@));
                        assert(string_views(params@) =~= before_params + block);
                        assert(param_block_ok(block, pattern@, ignore_case, basename, regex));
                    }
                },
                None => {
                    let mut v: Vec<char> = Vec::new();
                    if ignore_case {
                        append_str(&mut v, "id IN (SELECT id FROM files WHERE LOWER(full_path) LIKE LOWER(?))");
                    } else {
                        append_str(&mut v, "id IN (SELECT id FROM files WHERE full_path LIKE ?)");
                    }
                    part = v;
                    let like = like_param_chars(pattern, ignore_case, basename);
                    let ls = string_from_chars(like.as_slice());
                    params.push(ls);
                    proof {
                        block = seq![like_param(pattern@, ignore_case, basename)];
                        assert(string_views(params@) =~= before_params + block);
                    }
                },
            }
        }
        let ghost pre_parts = parts@.map_values(|v: Vec<char>| v@);
        parts.push(part);
        proof {
            assert(views.take(i + 1) =~= views.take(i as int).push(views[i as int]));
            assert(parts@.map_values(|v: Vec<char>| v@) =~= pre_parts.push(part@));
            assert(query_parts(views.take(i + 1), ignore_case, basename, regex) =~= query_parts(
                views.take(i as int),
                ignore_case,
                basename,
                regex,
            ).push(query_part(views[i as int], ignore_case, basename, regex)));
            let old_blocks = blocks;
            blocks = blocks.push(block);
            assert(blocks.drop_last() =~= old_blocks);
            assert(flatten_blocks(blocks) == flatten_blocks(old_blocks) + block);
        }
        i = i + 1;
    }
    proof {
        assert(views.take(patterns@.len() as int) =~= views);
    }
    (parts, params)
}

/// Joins the pattern conditions (see `where_base`).
fn join_parts(parts: &Vec<Vec<char>>) -> (r: Vec<char>)
    ensures
        r@ == where_base(parts@.map_values(|v: Vec<char>| v@)),
{
    let ghost pv = parts@.map_values(|v: Vec<char>| v@);
    if parts.len() == 1 {
        let mut r: Vec<char> = Vec::new();
        append_chars(&mut r, parts[0].as_slice());
        return r;
    }
    let mut j: Vec<char> = Vec::new();
    let mut i: usize = 0;
    while i < parts.len()
        invariant
            0 <= i <= parts@.len(),
            pv == parts@.map_values(|v: Vec<char>| v@),
            j@ == join_or(pv.take(i as int)),
        decreases parts@.len() - i,
    {
        proof {
            assert(pv.take(i + 1).drop_last() =~= pv.take(i as int));
            assert(pv.take(i + 1).last() == parts@[i as int]@);
        }
        if i > 0 {
            append_str(&mut j, " OR ");
        } else {
            proof {
                assert(pv.take(1) =~= seq![parts@[0]@]);
            }
        }
        append_chars(&mut j, parts[i].as_slice());
        i = i + 1;
    }
    proof {
        assert(pv.take(parts@.len() as int) =~= pv);
    }
    let mut r: Vec<char> = Vec::new();
    r.push('(');
    append_chars(&mut r, j.as_slice());
    r.push(')');
    proof {
        assert("("@ =~= seq!['(']) by {
            reveal_strlit("(");
        }
        assert(")"@ =~= seq![')']) by {
            reveal_strlit(")");
        }
    }
    r
}

fn size_text(size_filter: Option<&SizeFilter>) -> (w: Vec<char>)
    ensures
        w@ == size_clause(size_filter),
{
    let mut w: Vec<char> = Vec::new();
    if let Some(sf) = size_filter {
        append_str(&mut w, " AND size ");
        match sf.operator {
            CmpOp::Eq => append_str(&mut w, "="),
            CmpOp::Ge => append_str(&mut w, ">="),
            CmpOp::Le => append_str(&mut w, "<="),
        }
        append_str(&mut w, " ");
        append_chars(&mut w, dec_u128(sf.bytes as u128).as_slice());
    }
    w
}

fn mtime_text(modified_filter: Option<&ModifiedFilter>, now: i64) -> (w: Vec<char>)
    ensures
        w@ == mtime_clause(modified_filter, now),
{
    let mut w: Vec<char> = Vec::new();
    if let Some(mf) = modified_filter {
        let cutoff: i128 = (now as i128) - (mf.seconds as i128);
        append_str(&mut w, " AND mtime ");
        match mf.operator {
            CmpOp::Eq => append_str(&mut w, "="),
            CmpOp::Ge => append_str(&mut w, ">="),
            CmpOp::Le => append_str(&mut w, "<="),
        }
        append_str(&mut w, " ");
        append_chars(&mut w, dec_i128(cutoff).as_slice());
    }
    w
}

fn mime_text(mime_filter: Option<&MimeFilter>) -> (w: Vec<char>)
    ensures
        w@ == mime_clause(mime_filter),
{
    let mut w: Vec<char> = Vec::new();
    if let Some(m) = mime_filter {
        if m.is_glob {
            append_str(&mut w, " AND mime_type LIKE '");
            let pc = str_chars(m.pattern.as_str());
            let mut i: usize = 0;
            let ghost base = w@;
            while i < pc.len()
                invariant
                    0 <= i <= pc@.len(),
                    w@ == base + stars_to_percent(pc@.take(i as int)),
                decreases pc@.len() - i,
            {
                let c = pc[i];
                if c == '*' {
                    w.push('%');
                } else {
                    w.push(c);
                }
                proof {
                    assert(stars_to_percent(pc@.take(i + 1)) =~= stars_to_percent(pc@.take(i as int)).push(
                        if c == '*' { '%' } else { c },
                    ));
                }
                i = i + 1;
            }
            proof {
                assert(pc@.take(pc@.len() as int) =~= pc@);
            }
            append_str(&mut w, "'");
        } else {
            append_str(&mut w, " AND mime_type = '");
            append_str(&mut w, m.pattern.as_str());
            append_str(&mut w, "'");
        }
    }
    w
}

/// The filter conditions at time `now` (see `filter_clauses`).
fn filter_text(
    size_filter: Option<&SizeFilter>,
    modified_filter: Option<&ModifiedFilter>,
    mime_filter: Option<&MimeFilter>,
    existing: bool,
    now: i64,
) -> (r: Vec<char>)
    ensures
        r@ == filter_clauses(size_filter, modified_filter, mime_filter, existing, now),
{
    let mut w = size_text(size_filter);
    append_chars(&mut w, mtime_text(modified_filter, now).as_slice());
    append_chars(&mut w, mime_text(mime_filter).as_slice());
    if existing {
        append_str(&mut w, " AND 1=1 /* existing check done in Rust */");
    }
    proof {
        assert(w@ =~= filter_clauses(size_filter, modified_filter, mime_filter, existing, now));
    }
    w
}

/// The SQL of a search at time `now` (see `query_sql`) and its parameters, one block per
/// pattern (see `param_block_ok`).
pub fn build_query_at(
    patterns: &[String],
    ignore_case: bool,
    basename: bool,
    regex: bool,
    existing: bool,
    limit: Option<usize>,
    count: bool,
    size_filter: Option<&SizeFilter>,
    modified_filter: Option<&ModifiedFilter>,
    mime_filter: Option<&MimeFilter>,
    now: i64,
) -> (r: SearchQuery)
    ensures
        r.sql@ == query_sql(
            string_views(patterns@),
            ignore_case,
            basename,
            regex,
            existing,
            limit,
            count,
            size_filter,
            modified_filter,
            mime_filter,
            now,
        ),
        exists|blocks: Seq<Seq<Seq<char>>>|
            blocks.len() == patterns@.len() && (forall|i: int| 0 <= i < blocks.len() ==> param_block_ok(
                #[trigger] blocks[i],
                patterns@[i]@,
                ignore_case,
                basename,
                regex,
            )) && string_views(r.params@) == flatten_blocks(blocks),
{
    let (parts, params) = pattern_parts(patterns, ignore_case, basename, regex);
    let base = join_parts(&parts);
    let filters = filter_text(size_filter, modified_filter, mime_filter, existing, now);
    let mut sql: Vec<char> = Vec::new();
    if count {
        append_str(&mut sql, "SELECT COUNT(*) FROM files");
    } else {
        append_str(&mut sql, "SELECT id, full_path, size, mtime, mode, mime_type FROM files");
    }
    append_str(&mut sql, " WHERE ");
    append_chars(&mut sql, base.as_slice());
    append_chars(&mut sql, filters.as_slice());
    let ghost before_limit = sql@;
    if let Some(n) = limit {
        if !count {
            append_str(&mut sql, " LIMIT ");
            append_chars(&mut sql, dec_u128(n as u128).as_slice());
        }
    }
    proof {
        assert(sql@ =~= query_sql(
            string_views(patterns@),
            ignore_case,
            basename,
            regex,
            existing,
            limit,
            count,
            size_filter,
            modified_filter,
            mime_filter,
            now,
        ));
    }
    SearchQuery { sql: string_from_chars(sql.as_slice()), params }
}

/// The SQL of a search as of the current time, and its parameters (see `build_query_at`).
pub fn build_query(
    patterns: &[String],
    ignore_case: bool,
    basename: bool,
    regex: bool,
    existing: bool,
    limit: Option<usize>,
    count: bool,
    size_filter: Option<&SizeFilter>,
    modified_filter: Option<&ModifiedFilter>,
    mime_filter: Option<&MimeFilter>,
) -> (r: SearchQuery)
    ensures
        exists|now: i64|
            #![trigger query_sql(string_views(patterns@), ignore_case, basename, regex, existing, limit, count, size_filter, modified_filter, mime_filter, now)]
            r.sql@ == query_sql(
                string_views(patterns@),
                ignore_case,
                basename,
                regex,
                existing,
                limit,
                count,
                size_filter,
                modified_filter,
                mime_filter,
                now,
            ),
        exists|blocks: Seq<Seq<Seq<char>>>|
            blocks.len() == patterns@.len() && (forall|i: int| 0 <= i < blocks.len() ==> param_block_ok(
                #[trigger] blocks[i],
                patterns@[i]@,
                ignore_case,
                basename,
                regex,
            )) && string_views(r.params@) == flatten_blocks(blocks),
{
    let now = crate::clock::utc_now_timestamp();
    build_query_at(
        patterns,
        ignore_case,
        basename,
        regex,
        existing,
        limit,
        count,
        size_filter,
        modified_filter,
        mime_filter,
        now,
    )
}


/// What SQL's comparison operators `<=`, `>=` and `=` say of two numbers.
pub open spec fn sql_compares(op: Seq<char>, a: int, b: int) -> bool {
    if op == "<="@ {
        a <= b
    } else if op == ">="@ {
        a >= b
    } else if op == "="@ {
        a == b
    } else {
        false
    }
}

/// The SQL size and mtime conditions keep what the in-memory filters keep: a value passes
/// the comparison written into the query exactly when it passes the filter's operator,
/// so an at-most filter (`Le`) is written `<=`, an at-least one (`Ge`) `>=`, and an exact
/// one (`Eq`) `=`.
pub proof fn lemma_sql_operators_agree(op: CmpOp, a: int, b: int)
    ensures
        sql_compares(size_op(op), a, b) == crate::index::search::op_holds(op, a, b),
        sql_compares(mtime_op(op), a, b) == crate::index::search::op_holds(op, a, b),
        op is Le ==> size_op(op) == "<="@ && mtime_op(op) == "<="@,
        op is Ge ==> size_op(op) == ">="@ && mtime_op(op) == ">="@,
        op is Eq ==> size_op(op) == "="@ && mtime_op(op) == "="@,
{
    reveal_strlit("<=");
    reveal_strlit(">=");
    reveal_strlit("=");
    assert("<="@ != ">="@) by {
        assert("<="@[0] != ">="@[0]);
    }
    assert("<="@.len() != "="@.len());
    assert(">="@.len() != "="@.len());
}

} // verus!
