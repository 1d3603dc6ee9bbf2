//! Release manifest checks.
use crate::format::{diag_is, fails_with, Diagnostic, Object, ReleaseManifest};
use crate::identity::{is_hash_text, valid_hash};
use crate::strings::{bytes_contain, bytes_have_prefix, contains_bytes, has_prefix, str_eq, utf8_bytes};
use vstd::prelude::*;
use vstd::string::*;

verus! {

/// An object reference is well formed: a 64-digit hex identity whose relative
/// path lies under `objects/`, names the identity and cannot escape.
pub open spec fn object_ref_ok(hash: Seq<char>, o: Object) -> bool {
    let p = utf8_bytes(o.path@);
    &&& is_hash_text(utf8_bytes(hash))
    &&& !bytes_have_prefix(p, utf8_bytes("/"@))
    &&& !bytes_contain(p, utf8_bytes(".."@))
    &&& !bytes_contain(p, utf8_bytes(":"@))
    &&& !bytes_contain(p, utf8_bytes("\\"@))
    &&& bytes_have_prefix(p, utf8_bytes("objects/"@))
    &&& bytes_contain(p, utf8_bytes(hash))
}

/// The release lists an object with identity `id`.
pub open spec fn has_object(r: ReleaseManifest, id: Seq<char>) -> bool {
    exists|i: int| 0 <= i < r.objects@.len() && (#[trigger] r.objects@[i]).0@ == id
}

/// The identities a release must hold: program, engine files, then notices.
pub open spec fn release_roots(r: ReleaseManifest) -> Seq<Seq<char>> {
    seq![r.program@, r.engine.js@, r.engine.wasm@, r.engine.host@] + r.notices@.map_values(|n: String| n@)
}

/// The index of the first malformed object entry, if any.
pub open spec fn first_bad_object(r: ReleaseManifest) -> Option<int> {
    if exists|i: int| 0 <= i < r.objects@.len() && !object_ref_ok(r.objects@[i].0@, #[trigger] r.objects@[i].1) {
        Some(choose|i: int| 0 <= i < r.objects@.len() && !object_ref_ok(r.objects@[i].0@, #[trigger] r.objects@[i].1)
            && forall|j: int| 0 <= j < i ==> object_ref_ok(r.objects@[j].0@, #[trigger] r.objects@[j].1))
    } else {
        None
    }
}

fn object_ok(hash: &String, o: &Object) -> (r: bool)
    ensures
        r == object_ref_ok(hash@, *o),
{
    let p = o.path.as_str().as_bytes();
    valid_hash(hash.as_str()) && !has_prefix(p, "/".as_bytes()) && !contains_bytes(p, "..".as_bytes())
        && !contains_bytes(p, ":".as_bytes()) && !contains_bytes(p, "\\".as_bytes()) && has_prefix(
        p,
        "objects/".as_bytes(),
    ) && contains_bytes(p, hash.as_str().as_bytes())
}

fn holds_object(r: &ReleaseManifest, id: &String) -> (b: bool)
    ensures
        b == has_object(*r, id@),
{
    let mut i: usize = 0;
    while i < r.objects.len()
        invariant
            i <= r.objects@.len(),
            forall|j: int| 0 <= j < i ==> (#[trigger] r.objects@[j]).0@ != id@,
        decreases r.objects@.len() - i,
    {
        if str_eq(r.objects[i].0.as_str(), id.as_str()) {
            return true;
        }
        i = i + 1;
    }
    false
}

/// Checks a release manifest: supported format, well-formed object entries
/// (in list order), then that every root identity is listed.
pub fn validate_release(r: &ReleaseManifest) -> (res: Result<(), Diagnostic>)
    ensures
        r.format != 1 ==> fails_with(res, "E_VERSION"@, "release"@, "unsupported release"@),
        r.format == 1 && first_bad_object(*r) is Some ==> fails_with(
            res,
            "E_OBJECT"@,
            r.objects@[first_bad_object(*r)->0].0@,
            "invalid object reference"@,
        ),
        r.format == 1 && first_bad_object(*r) is None ==> match res {
            Ok(_) => forall|k: int| 0 <= k < release_roots(*r).len() ==> has_object(*r, #[trigger] release_roots(*r)[k]),
            Err(d) => exists|k: int| 0 <= k < release_roots(*r).len() && !has_object(*r, #[trigger] release_roots(*r)[k])
                && (forall|m: int| 0 <= m < k ==> has_object(*r, #[trigger] release_roots(*r)[m]))
                && diag_is(d, "E_OBJECT"@, release_roots(*r)[k], "release root missing"@),
        },
{
    if r.format != 1 {
        return Err(Diagnostic::new("E_VERSION", "release", "unsupported release"));
    }
    let mut i: usize = 0;
    while i < r.objects.len()
        invariant
            r.format == 1,
            i <= r.objects@.len(),
            forall|j: int| 0 <= j < i ==> object_ref_ok(r.objects@[j].0@, #[trigger] r.objects@[j].1),
        decreases r.objects@.len() - i,
    {
        if !object_ok(&r.objects[i].0, &r.objects[i].1) {
            proof {
                let w = i as int;
                assert(!object_ref_ok(r.objects@[w].0@, r.objects@[w].1));
                let c = first_bad_object(*r)->0;
                assert(first_bad_object(*r) is Some);
                assert(0 <= c < r.objects@.len() && !object_ref_ok(r.objects@[c].0@, r.objects@[c].1)
                    && forall|j: int| 0 <= j < c ==> object_ref_ok(r.objects@[j].0@, #[trigger] r.objects@[j].1));
                if c < w {
                } else if c > w {
                    assert(object_ref_ok(r.objects@[w].0@, r.objects@[w].1));
                }
                assert(c == w);
            }
            return Err(Diagnostic::new("E_OBJECT", r.objects[i].0.as_str(), "invalid object reference"));
        }
        i = i + 1;
    }
    assert(first_bad_object(*r) is None);
    let fixed: [&String; 4] = [&r.program, &r.engine.js, &r.engine.wasm, &r.engine.host];
    let mut k: usize = 0;
    while k < 4
        invariant
            k <= 4,
            r.format == 1,
            first_bad_object(*r) is None,
            fixed@ == seq![&r.program, &r.engine.js, &r.engine.wasm, &r.engine.host],
            forall|m: int| 0 <= m < k ==> has_object(*r, #[trigger] release_roots(*r)[m]),
        decreases 4 - k,
    {
        assert(release_roots(*r)[k as int] == fixed@[k as int]@);
        if !holds_object(r, fixed[k]) {
            return Err(Diagnostic::new("E_OBJECT", fixed[k].as_str(), "release root missing"));
        }
        k = k + 1;
    }
    let mut n: usize = 0;
    while n < r.notices.len()
        invariant
            n <= r.notices@.len(),
            r.format == 1,
            first_bad_object(*r) is None,
            forall|m: int| 0 <= m < 4 + n ==> has_object(*r, #[trigger] release_roots(*r)[m]),
        decreases r.notices@.len() - n,
    {
        assert(release_roots(*r)[4 + n] == r.notices@[n as int]@);
        if !holds_object(r, &r.notices[n]) {
            return Err(Diagnostic::new("E_OBJECT", r.notices[n].as_str(), "release root missing"));
        }
        n = n + 1;
    }
    Ok(())
}

} // verus!
