//! Route image discovery and the precache job's decisions: which requests an
//! image element emits, the deduplicated union of what every route's render
//! emitted, and the fail-fast outcome of warming them all.
use crate::request::{Blur, CachedImage, CachedImageOption, RequestView, Resize};
use crate::store::CreateImageError;
use vstd::prelude::*;
use vstd::utf8::encode_utf8;

verus! {

/// The placeholder every blurred image element asks for.
pub open spec fn placeholder_blur() -> Blur {
    Blur { width: 20, height: 20, svg_width: 100, svg_height: 100, sigma: 15 }
}

/// Whether `s` starts with `http` (an absolute, remote source).
pub open spec fn is_remote(s: Seq<u8>) -> bool {
    s.len() >= 4 && s.subrange(0, 4) == seq![104u8, 116u8, 116u8, 112u8]
}

/// Some request in `v` has the value `x`.
pub open spec fn holds(v: Seq<CachedImage>, x: RequestView) -> bool {
    exists|j: int| 0 <= j < v.len() && (#[trigger] v[j])@ == x
}

/// Some route's render emitted a request with the value `x`.
pub open spec fn emitted(routes: Seq<Vec<CachedImage>>, x: RequestView) -> bool {
    exists|k: int, i: int|
        0 <= k < routes.len() && 0 <= i < routes[k]@.len() && (#[trigger] routes[k]@[i])@ == x
}

/// A copy of a request.
fn copy_request(r: &CachedImage) -> (c: CachedImage)
    ensures
        c@ == r@,
{
    CachedImage { src: r.src.clone(), option: r.option }
}

/// The requests an image element with these properties emits during a render:
/// none for a remote source; else the resize, then the placeholder if `blur`.
pub fn image_requests(src: &str, width: u32, height: u32, quality: u8, blur: bool) -> (r: Vec<
    CachedImage,
>)
    ensures
        is_remote(encode_utf8(src@)) ==> r@.len() == 0,
        !is_remote(encode_utf8(src@)) ==> r@.len() == (if blur {
            2int
        } else {
            1int
        }) && r@[0]@ == (RequestView {
            src: src@,
            option: CachedImageOption::Resize(Resize { width, height, quality }),
        }) && (blur ==> r@[1]@ == (RequestView {
            src: src@,
            option: CachedImageOption::Blur(placeholder_blur()),
        })),
{
    let bytes = src.as_bytes();
    let mut out: Vec<CachedImage> = Vec::new();
    if bytes.len() >= 4 && bytes[0] == 104 && bytes[1] == 116 && bytes[2] == 116 && bytes[3] == 112 {
        assert(bytes@.subrange(0, 4) =~= seq![104u8, 116u8, 116u8, 112u8]);
        return out;
    }
    assert(!is_remote(bytes@)) by {
        if bytes@.len() >= 4 {
            let p = bytes@.subrange(0, 4);
            assert(p[0] == bytes@[0] && p[1] == bytes@[1] && p[2] == bytes@[2] && p[3] == bytes@[3]);
        }
    }
    out.push(
        CachedImage {
            src: src.to_owned(),
            option: CachedImageOption::Resize(Resize { width, height, quality }),
        },
    );
    if blur {
        out.push(
            CachedImage {
                src: src.to_owned(),
                option: CachedImageOption::Blur(
                    Blur { width: 20, height: 20, svg_width: 100, svg_height: 100, sigma: 15 },
                ),
            },
        );
    }
    out
}

/// Whether some request in `v` equals `x`.
fn contains_request(v: &Vec<CachedImage>, x: &CachedImage) -> (r: bool)
    ensures
        r == holds(v@, x@),
{
    let mut j: usize = 0;
    while j < v.len()
        invariant
            j <= v@.len(),
            forall|m: int| 0 <= m < j ==> v@[m]@ != x@,
        decreases v@.len() - j,
    {
        if v[j] == *x {
            return true;
        }
        j = j + 1;
    }
    false
}

/// Every request that any route's render emitted, each once.
pub fn discover(per_route: &Vec<Vec<CachedImage>>) -> (r: Vec<CachedImage>)
    ensures
        forall|j: int| 0 <= j < r@.len() ==> emitted(per_route@, (#[trigger] r@[j])@),
        forall|k: int, i: int|
            0 <= k < per_route@.len() && 0 <= i < per_route@[k]@.len() ==> holds(
                r@,
                (#[trigger] per_route@[k]@[i])@,
            ),
        forall|j1: int, j2: int| 0 <= j1 < j2 < r@.len() ==> r@[j1]@ != r@[j2]@,
{
    let mut out: Vec<CachedImage> = Vec::new();
    let mut k: usize = 0;
    while k < per_route.len()
        invariant
            k <= per_route@.len(),
            forall|j: int| 0 <= j < out@.len() ==> emitted(per_route@, (#[trigger] out@[j])@),
            forall|k2: int, i: int|
                0 <= k2 < k && 0 <= i < per_route@[k2]@.len() ==> holds(
                    out@,
                    (#[trigger] per_route@[k2]@[i])@,
                ),
            forall|j1: int, j2: int| 0 <= j1 < j2 < out@.len() ==> out@[j1]@ != out@[j2]@,
        decreases per_route@.len() - k,
    {
        let route = &per_route[k];
        let mut i: usize = 0;
        while i < route.len()
            invariant
                k < per_route@.len(),
                *route == per_route@[k as int],
                i <= route@.len(),
                forall|j: int| 0 <= j < out@.len() ==> emitted(per_route@, (#[trigger] out@[j])@),
                forall|k2: int, i2: int|
                    0 <= k2 < k && 0 <= i2 < per_route@[k2]@.len() ==> holds(
                        out@,
                        (#[trigger] per_route@[k2]@[i2])@,
                    ),
                forall|i2: int| 0 <= i2 < i ==> holds(out@, (#[trigger] route@[i2])@),
                forall|j1: int, j2: int| 0 <= j1 < j2 < out@.len() ==> out@[j1]@ != out@[j2]@,
            decreases route@.len() - i,
        {
            let item = &route[i];
            if !contains_request(&out, item) {
                let ghost before = out@;
                out.push(copy_request(item));
                proof {
                    assert forall|x: RequestView| holds(before, x) implies holds(out@, x) by {
                        let j = choose|j: int| 0 <= j < before.len() && (#[trigger] before[j])@ == x;
                        assert(out@[j] == before[j]);
                    }
                    assert(holds(out@, item@)) by {
                        assert(out@[before.len() as int]@ == item@);
                    }
                    assert(emitted(per_route@, item@)) by {
                        assert(per_route@[k as int]@[i as int] == *item);
                    }
                    assert forall|j: int| 0 <= j < out@.len() implies emitted(
                        per_route@,
                        (#[trigger] out@[j])@,
                    ) by {
                        if j < before.len() {
                            assert(out@[j] == before[j]);
                        }
                    }
                    assert forall|j1: int, j2: int| 0 <= j1 < j2 < out@.len() implies out@[j1]@
                        != out@[j2]@ by {
                        if j2 < before.len() {
                            assert(out@[j1] == before[j1] && out@[j2] == before[j2]);
                        } else {
                            assert(out@[j1] == before[j1]);
                            if out@[j1]@ == out@[j2]@ {
                                assert(holds(before, item@));
                            }
                        }
                    }
                }
            }
            i = i + 1;
        }
        k = k + 1;
    }
    out
}

/// The precache job's outcome, failing fast: the first failure among the
/// results in order, or success when every request was materialised.
pub fn first_failure(results: &Vec<Result<bool, CreateImageError>>) -> (r: Result<
    (),
    CreateImageError,
>)
    ensures
        r is Ok <==> forall|i: int| 0 <= i < results@.len() ==> (#[trigger] results@[i]) is Ok,
        r matches Err(e) ==> exists|i: int|
            0 <= i < results@.len() && results@[i] == Err::<bool, CreateImageError>(e) && forall|
                m: int,
            | 0 <= m < i ==> (#[trigger] results@[m]) is Ok,
{
    let mut i: usize = 0;
    while i < results.len()
        invariant
            i <= results@.len(),
            forall|m: int| 0 <= m < i ==> (#[trigger] results@[m]) is Ok,
        decreases results@.len() - i,
    {
        match results[i] {
            Ok(_) => {},
            Err(e) => {
                return Err(e);
            },
        }
        i = i + 1;
    }
    Ok(())
}

} // verus!
