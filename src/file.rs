//! Choosing the files to search by their extension.
use vstd::prelude::*;

use crate::pattern::chars_of;

verus! {

/// The extension of `path`: what follows the last dot of its file name, or nothing
/// when the file name has none.
pub uninterp spec fn extension_of(path: Seq<char>) -> Seq<char>;

/// Relies on std::path::Path::extension: the extension of the path's file name, read as
/// UTF-8, and an empty string where there is none. It depends on the path alone.
#[verifier::external_body]
fn path_extension(path: &str) -> (r: String)
    ensures
        r@ == extension_of(path@),
{
    std::path::Path::new(path).extension().and_then(|e| e.to_str()).unwrap_or("").to_string()
}

/// The texts of a list of strings.
pub open spec fn texts(v: Seq<&str>) -> Seq<Seq<char>> {
    v.map_values(|s: &str| s@)
}

/// The paths of `files` whose extension is one of `types`, in order.
pub open spec fn with_extension_in(files: Seq<String>, types: Seq<Seq<char>>) -> Seq<Seq<char>>
    decreases files.len(),
{
    if files.len() == 0 {
        Seq::empty()
    } else {
        let prev = with_extension_in(files.drop_last(), types);
        if types.contains(extension_of(files.last()@)) {
            prev.push(files.last()@)
        } else {
            prev
        }
    }
}

/// `a` and `b` hold the same characters.
fn same_text(a: &str, b: &str) -> (r: bool)
    ensures
        r == (a@ == b@),
{
    let x = chars_of(a);
    let y = chars_of(b);
    if x.len() != y.len() {
        return false;
    }
    let mut i: usize = 0;
    while i < x.len()
        invariant
            x@ == a@,
            y@ == b@,
            x@.len() == y@.len(),
            i <= x@.len(),
            x@.subrange(0, i as int) == y@.subrange(0, i as int),
        decreases x@.len() - i,
    {
        if x[i] != y[i] {
            proof {
                if a@ == b@ {
                    assert(x@[i as int] == y@[i as int]);
                }
            }
            return false;
        }
        i = i + 1;
        proof {
            assert(x@.subrange(0, i as int) =~= y@.subrange(0, i as int)) by {
                assert forall|k: int| 0 <= k < i implies x@.subrange(0, i as int)[k] == y@.subrange(0, i as int)[k] by {
                    if k < i - 1 {
                        assert(x@.subrange(0, i - 1)[k] == y@.subrange(0, i - 1)[k]);
                    }
                }
            }
        }
    }
    proof {
        assert(x@ =~= x@.subrange(0, i as int));
        assert(y@ =~= y@.subrange(0, i as int));
    }
    true
}

/// Whether `extension` is one of `filetypes`.
pub fn has_filetype(extension: &str, filetypes: &[&str]) -> (r: bool)
    ensures
        r == texts(filetypes@).contains(extension@),
{
    let mut i: usize = 0;
    while i < filetypes.len()
        invariant
            i <= filetypes@.len(),
            forall|k: int| 0 <= k < i ==> (#[trigger] filetypes@[k])@ != extension@,
        decreases filetypes@.len() - i,
    {
        if same_text(filetypes[i], extension) {
            proof {
                assert(texts(filetypes@)[i as int] == extension@);
            }
            return true;
        }
        i = i + 1;
    }
    proof {
        if texts(filetypes@).contains(extension@) {
            let k = choose|k: int| 0 <= k < texts(filetypes@).len() && texts(filetypes@)[k] == extension@;
            assert(filetypes@[k]@ == extension@);
        }
    }
    false
}

/// The paths of `files` whose extension is one of `filetypes`, in order.
pub fn filter_filetypes(files: Vec<String>, filetypes: &[&str]) -> (r: Vec<String>)
    ensures
        r@.map_values(|s: String| s@) == with_extension_in(files@, texts(filetypes@)),
{
    let mut r: Vec<String> = Vec::new();
    let mut i: usize = 0;
    while i < files.len()
        invariant
            i <= files@.len(),
            r@.map_values(|s: String| s@) == with_extension_in(files@.subrange(0, i as int), texts(filetypes@)),
        decreases files@.len() - i,
    {
        let ghost before = r@;
        let ext = path_extension(files[i].as_str());
        let keep = has_filetype(ext.as_str(), filetypes);
        proof {
            let next = files@.subrange(0, i + 1);
            assert(next.drop_last() =~= files@.subrange(0, i as int));
            assert(next.last() == files@[i as int]);
        }
        if keep {
            r.push(files[i].clone());
            proof {
                assert(r@.map_values(|s: String| s@) =~= before.map_values(|s: String| s@).push(files@[i as int]@));
            }
        }
        i = i + 1;
    }
    proof {
        assert(files@.subrange(0, files@.len() as int) =~= files@);
    }
    r
}

} // verus!
