//! Plain output: one path per line, or NUL-terminated paths.
use vstd::prelude::*;
use vstd::string::*;
use crate::index::trigram::string_views;
use crate::text::{append_str, string_from_chars};

verus! {

broadcast use vstd::string::group_string_axioms;

/// Texts joined by newlines (no newline after the last).
pub open spec fn join_lines(v: Seq<Seq<char>>) -> Seq<char>
    decreases v.len(),
{
    if v.len() == 0 {
        Seq::empty()
    } else if v.len() == 1 {
        v[0]
    } else {
        join_lines(v.drop_last()) + seq!['\n'] + v.last()
    }
}

/// The paths, one per line.
pub fn render_plain(results: &[String]) -> (r: String)
    ensures
        r@ == join_lines(string_views(results@)),
{
    let ghost views = string_views(results@);
    let mut v: Vec<char> = Vec::new();
    let mut i: usize = 0;
    while i < results.len()
        invariant
            0 <= i <= results@.len(),
            views == string_views(results@),
            v@ == join_lines(views.take(i as int)),
        decreases results@.len() - i,
    {
        proof {
            assert(views.take(i + 1).drop_last() =~= views.take(i as int));
            assert(views.take(i + 1).last() == results@[i as int]@);
            if i == 0 {
                assert(views.take(1) =~= seq![results@[0]@]);
            }
        }
        if i > 0 {
            v.push('\n');
        }
        append_str(&mut v, results[i].as_str());
        proof {
            if i > 0 {
                assert(v@ =~= join_lines(views.take(i as int)) + seq!['\n'] + results@[i as int]@);
            } else {
                assert(v@ =~= results@[0]@);
            }
        }
        i = i + 1;
    }
    proof {
        assert(views.take(results@.len() as int) =~= views);
    }
    string_from_chars(v.as_slice())
}

/// Each path's UTF-8 bytes followed by a NUL byte.
pub open spec fn null_terminated(v: Seq<Seq<char>>) -> Seq<u8>
    decreases v.len(),
{
    if v.len() == 0 {
        Seq::empty()
    } else {
        null_terminated(v.drop_last()) + vstd::utf8::encode_utf8(v.last()) + seq![0u8]
    }
}

/// The paths, each NUL-terminated, as bytes.
pub fn render_null(results: &[String]) -> (r: Vec<u8>)
    ensures
        r@ == null_terminated(string_views(results@)),
{
    let ghost views = string_views(results@);
    let mut out: Vec<u8> = Vec::new();
    let mut i: usize = 0;
    while i < results.len()
        invariant
            0 <= i <= results@.len(),
            views == string_views(results@),
            out@ == null_terminated(views.take(i as int)),
        decreases results@.len() - i,
    {
        proof {
            assert(views.take(i + 1).drop_last() =~= views.take(i as int));
            assert(views.take(i + 1).last() == results@[i as int]@);
        }
        crate::index::header::push_bytes(&mut out, results[i].as_str().as_bytes());
        out.push(0u8);
        proof {
            assert(out@ =~= null_terminated(views.take(i as int)) + vstd::utf8::encode_utf8(results@[i as int]@) + seq![0u8]);
        }
        i = i + 1;
    }
    proof {
        assert(views.take(results@.len() as int) =~= views);
    }
    out
}

} // verus!
