//! Extension filtering of a list of file paths.

use vstd::prelude::*;

verus! {

/// The extension of a path written as text, as `std::path::Path::extension`
/// reads it: the part of the final component after its last dot, if any.
pub uninterp spec fn extension_of(path: Seq<char>) -> Option<Seq<char>>;

/// The characters of an optional string.
pub open spec fn opt_chars(s: Option<String>) -> Option<Seq<char>> {
    match s {
        Some(t) => Some(t@),
        None => None,
    }
}

/// Relies on `std::path::Path::extension`: the extension of a path, which
/// depends on the text of the path alone. Cut from UTF-8 text at an ASCII dot,
/// it is UTF-8 again.
#[verifier::external_body]
fn path_extension(path: &String) -> (r: Option<String>)
    ensures
        opt_chars(r) == extension_of(path@),
{
    std::path::Path::new(path.as_str()).extension().and_then(|e| e.to_str()).map(|e| e.to_string())
}

/// Whether an extension is among the allowed ones. A file without an
/// extension is never allowed.
pub open spec fn ext_allowed(ext: Option<Seq<char>>, allowed: Seq<Seq<char>>) -> bool {
    match ext {
        Some(e) => allowed.contains(e),
        None => false,
    }
}

/// Whether a path passes an optional filter: every path passes no filter.
pub open spec fn passes(path: Seq<char>, filter: Option<Seq<Seq<char>>>) -> bool {
    match filter {
        Some(allowed) => ext_allowed(extension_of(path), allowed),
        None => true,
    }
}

/// The test of a path against a filter.
pub open spec fn keeps(filter: Option<Seq<Seq<char>>>) -> spec_fn(Seq<char>) -> bool {
    |p: Seq<char>| passes(p, filter)
}

/// The paths that pass the filter, in their order.
pub open spec fn select(files: Seq<Seq<char>>, filter: Option<Seq<Seq<char>>>) -> Seq<Seq<char>> {
    files.filter(keeps(filter))
}

/// Whether `ext` is one of `allowed`, compared verbatim.
pub fn extension_allowed(ext: &Option<String>, allowed: &Vec<String>) -> (r: bool)
    ensures
        r == ext_allowed(opt_chars(*ext), allowed.deep_view()),
{
    match ext {
        None => false,
        Some(e) => {
            assert(opt_chars(*ext) == Some(e@));
            let mut i: usize = 0;
            while i < allowed.len()
                invariant
                    0 <= i <= allowed.len(),
                    opt_chars(*ext) == Some(e@),
                    forall|j: int| 0 <= j < i ==> allowed@[j]@ != e@,
                decreases allowed.len() - i,
            {
                if allowed[i] == *e {
                    assert(allowed.deep_view()[i as int] == e@);
                    assert(allowed.deep_view().contains(e@));
                    return true;
                }
                i = i + 1;
            }
            assert(!allowed.deep_view().contains(e@)) by {
                if allowed.deep_view().contains(e@) {
                    let j = choose|j: int| 0 <= j < allowed.deep_view().len() && allowed.deep_view()[j] == e@;
                    assert(allowed@[j]@ == e@);
                }
            }
            false
        },
    }
}

/// Whether `path` passes `filter`: with no filter every path does, with one
/// the path's extension must be among the allowed ones.
pub fn path_passes(path: &String, filter: &Option<Vec<String>>) -> (r: bool)
    ensures
        r == passes(path@, filter.deep_view()),
{
    match filter {
        None => true,
        Some(allowed) => {
            let ext = path_extension(path);
            extension_allowed(&ext, allowed)
        },
    }
}

/// The files that pass `filter`, in their order.
pub fn select_files(files: &Vec<String>, filter: &Option<Vec<String>>) -> (r: Vec<String>)
    ensures
        r.deep_view() == select(files.deep_view(), filter.deep_view()),
{
    let ghost fv = filter.deep_view();
    let ghost pred = keeps(fv);
    let mut kept: Vec<String> = Vec::new();
    let mut i: usize = 0;
    while i < files.len()
        invariant
            0 <= i <= files.len(),
            fv == filter.deep_view(),
            pred == keeps(fv),
            kept.deep_view() == files.deep_view().subrange(0, i as int).filter(pred),
        decreases files.len() - i,
    {
        let ghost before = kept.deep_view();
        let ghost prefix = files.deep_view().subrange(0, i as int + 1);
        assert(prefix.drop_last() =~= files.deep_view().subrange(0, i as int));
        assert(prefix.last() == files@[i as int]@);
        reveal(Seq::filter);
        if path_passes(&files[i], filter) {
            kept.push(files[i].clone());
            assert(kept.deep_view() =~= before.push(files@[i as int]@));
        } else {
            assert(kept.deep_view() =~= before);
        }
        i = i + 1;
    }
    assert(files.deep_view().subrange(0, files.len() as int) =~= files.deep_view());
    kept
}

} // verus!
