use vstd::prelude::*;
use vstd::string::StringSliceAdditionalSpecFns;

verus! {

/// The path `rel` resolved against the directory `base`.
pub uninterp spec fn path_joined(base: Seq<char>, rel: Seq<char>) -> Seq<char>;

/// The directory that holds the path `p`.
pub uninterp spec fn parent_of(p: Seq<char>) -> Seq<char>;

/// The extension of the file name of `p`, if it has one.
pub uninterp spec fn extension_of(p: Seq<char>) -> Option<Seq<char>>;

/// Relies on `std::path::Path::join`: `rel` resolved against `base`, a function
/// of the two paths alone; on Unix a relative `rel` is appended to a `base`
/// that does not end in a separator with one `/` between them.
#[verifier::external_body]
pub(crate) fn join_path(base: &str, rel: &str) -> (r: String)
    ensures
        r@ == path_joined(base@, rel@),
        base@.len() > 0 && base@.last() != '/' && rel@.len() > 0 && rel@[0] != '/' ==> r@ == base@ + "/"@ + rel@,
{
    std::path::Path::new(base).join(rel).to_string_lossy().into_owned()
}

/// Relies on `std::path::Path::parent`: the path without its last component,
/// empty where there is none.
#[verifier::external_body]
fn parent_path(p: &str) -> (r: String)
    ensures
        r@ == parent_of(p@),
{
    std::path::Path::new(p).parent().map(|d| d.to_string_lossy().into_owned()).unwrap_or_default()
}

/// Relies on `std::path::Path::extension`: the part of the file name after its
/// last dot, if any.
#[verifier::external_body]
fn path_extension(p: &str) -> (r: Option<String>)
    ensures
        match r {
            Some(e) => extension_of(p@) == Some(e@),
            None => extension_of(p@) is None,
        },
{
    std::path::Path::new(p).extension().map(|e| e.to_string_lossy().into_owned())
}

/// The directory of a document, against which its includes are resolved.
pub fn directory_of(p: &str) -> (r: String)
    ensures
        r@ == parent_of(p@),
{
    parent_path(p)
}

/// The extensions of the files that are parsed: `c`, `cpp` and `h`.
pub open spec fn is_source_extension_spec(ext: Option<Seq<char>>) -> bool {
    match ext {
        Some(e) => e == "c"@ || e == "cpp"@ || e == "h"@,
        None => false,
    }
}

/// Whether two strings are equal.
pub(crate) fn str_eq(a: &str, b: &str) -> (r: bool)
    ensures
        r == (a@ == b@),
{
    let x = a.as_bytes();
    let y = b.as_bytes();
    if x.len() != y.len() {
        proof {
            if a@ == b@ {
                assert(x@ == y@);
            }
        }
        return false;
    }
    let mut i: usize = 0;
    while i < x.len()
        invariant
            i <= x@.len(),
            x@.len() == y@.len(),
            x@ == a.spec_bytes(),
            y@ == b.spec_bytes(),
            forall|k: int| 0 <= k < i ==> x@[k] == y@[k],
        decreases x@.len() - i,
    {
        if x[i] != y[i] {
            return false;
        }
        i = i + 1;
    }
    proof {
        assert(x@ =~= y@);
        vstd::utf8::encode_utf8_decode_utf8(a@);
        vstd::utf8::encode_utf8_decode_utf8(b@);
    }
    true
}

/// Whether a file with extension `ext` is parsed.
pub fn is_source_extension(ext: &Option<String>) -> (r: bool)
    ensures
        r == is_source_extension_spec(
            match ext {
                Some(e) => Some(e@),
                None => None,
            },
        ),
{
    match ext {
        Some(e) => str_eq(e.as_str(), "c") || str_eq(e.as_str(), "cpp") || str_eq(e.as_str(), "h"),
        None => false,
    }
}

/// Whether the file at `path` is a C, C++ or header source.
pub fn is_source_file(path: &str) -> (r: bool)
    ensures
        r == is_source_extension_spec(extension_of(path@)),
{
    let ext = path_extension(path);
    is_source_extension(&ext)
}

} // verus!
