//! Helpers of the network front ends: content-type inference from a
//! file name, the one-segment URL rule of the read-only HTTP surface,
//! and packing a name into the fixed-width identifier field.

use crate::catalog::str_eq;
use crate::dtos::NAME_SIZE;
use crate::store::ext_of;
use vstd::prelude::*;
use vstd::string::StringSliceAdditionalSpecFns;

verus! {

/// The content type served for a file extension: a fixed table, with
/// `application/octet-stream` for everything else.
pub open spec fn spec_mime_type(ext: Seq<char>) -> Seq<char> {
    if ext == "jpeg"@ || ext == "jpg"@ {
        "image/jpeg"@
    } else if ext == "png"@ {
        "image/png"@
    } else if ext == "mp4"@ {
        "video/mp4"@
    } else if ext == "pdf"@ {
        "application/pdf"@
    } else if ext == "txt"@ {
        "text/plain"@
    } else if ext == "json"@ {
        "application/json"@
    } else if ext == "html"@ {
        "text/html"@
    } else if ext == "css"@ {
        "text/css"@
    } else if ext == "js"@ {
        "application/javascript"@
    } else if ext == "svg"@ {
        "image/svg+xml"@
    } else if ext == "webp"@ {
        "image/webp"@
    } else if ext == "gif"@ {
        "image/gif"@
    } else if ext == "ico"@ {
        "image/x-icon"@
    } else if ext == "xml"@ {
        "application/xml"@
    } else {
        "application/octet-stream"@
    }
}

/// The content type for a file name, by its extension.
pub fn get_mime_type(filename: &str) -> (r: &'static str)
    ensures
        r@ == spec_mime_type(ext_of(filename@)),
{
    let ext = crate::store::ext_of_exec(filename);
    let e = ext.as_str();
    if str_eq(e, "jpeg") || str_eq(e, "jpg") {
        "image/jpeg"
    } else if str_eq(e, "png") {
        "image/png"
    } else if str_eq(e, "mp4") {
        "video/mp4"
    } else if str_eq(e, "pdf") {
        "application/pdf"
    } else if str_eq(e, "txt") {
        "text/plain"
    } else if str_eq(e, "json") {
        "application/json"
    } else if str_eq(e, "html") {
        "text/html"
    } else if str_eq(e, "css") {
        "text/css"
    } else if str_eq(e, "js") {
        "application/javascript"
    } else if str_eq(e, "svg") {
        "image/svg+xml"
    } else if str_eq(e, "webp") {
        "image/webp"
    } else if str_eq(e, "gif") {
        "image/gif"
    } else if str_eq(e, "ico") {
        "image/x-icon"
    } else if str_eq(e, "xml") {
        "application/xml"
    } else {
        "application/octet-stream"
    }
}

/// A URL path with its one leading slash removed.
pub open spec fn strip_leading_slash(u: Seq<char>) -> Seq<char> {
    if u.len() > 0 && u[0] == '/' {
        u.skip(1)
    } else {
        u
    }
}

/// The single path segment of a URL, when it has exactly one: the
/// path with its leading slash removed, provided no further slash
/// remains.
pub fn single_path_segment(uri: &str) -> (r: Option<String>)
    ensures
        r is Some <==> !strip_leading_slash(uri@).contains('/'),
        r matches Some(s) ==> s@ == strip_leading_slash(uri@),
{
    let n = uri.unicode_len();
    let start: usize = if n > 0 && uri.get_char(0) == '/' {
        1
    } else {
        0
    };
    proof {
        if start == 1 {
            assert(strip_leading_slash(uri@) =~= uri@.skip(1));
        } else {
            assert(strip_leading_slash(uri@) =~= uri@);
        }
    }
    let mut i: usize = start;
    while i < n
        invariant
            start <= i <= n,
            n == uri@.len(),
            start == 0 || start == 1,
            strip_leading_slash(uri@) == uri@.subrange(start as int, n as int),
            forall|k: int| start <= k < i ==> uri@[k] != '/',
        decreases n - i,
    {
        if uri.get_char(i) == '/' {
            proof {
                assert(strip_leading_slash(uri@)[i - start] == '/');
                assert(strip_leading_slash(uri@).contains('/'));
            }
            return None;
        }
        i += 1;
    }
    proof {
        assert forall|k: int|
            0 <= k < strip_leading_slash(uri@).len() implies strip_leading_slash(uri@)[k]
            != '/' by {
            assert(strip_leading_slash(uri@)[k] == uri@[start + k]);
        }
        assert(!strip_leading_slash(uri@).contains('/'));
    }
    let seg = uri.substring_char(start, n);
    Some(seg.to_owned())
}

/// Pack a name into the zero-padded fixed-width identifier field;
/// refused when its byte encoding does not fit.
pub fn name_to_identifier(name: &str) -> (r: Option<[u8; NAME_SIZE]>)
    ensures
        r is Some <==> name.spec_bytes().len() <= NAME_SIZE,
        r matches Some(a) ==> a@.subrange(0, name.spec_bytes().len() as int) == name.spec_bytes()
            && (forall|k: int| name.spec_bytes().len() <= k < NAME_SIZE ==> a@[k] == 0),
{
    let bytes = name.as_bytes();
    let m = bytes.len();
    if m > 255 {
        return None;
    }
    let mut a: [u8; NAME_SIZE] = [0; NAME_SIZE];
    let mut i: usize = 0;
    while i < m
        invariant
            i <= m <= 255,
            bytes@.len() == m,
            bytes@ == name.spec_bytes(),
            forall|k: int| 0 <= k < i ==> a@[k] == bytes@[k],
            forall|k: int| i <= k < NAME_SIZE ==> a@[k] == 0,
        decreases m - i,
    {
        a[i] = bytes[i];
        i += 1;
    }
    proof {
        assert(a@.subrange(0, m as int) =~= name.spec_bytes());
    }
    Some(a)
}

} // verus!
