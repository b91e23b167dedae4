//! Discriminant assignment for union variants, as the derivation facility
//! performs it: a variant with an explicit discriminant keeps it, each
//! following variant without one takes the previous variant's discriminant
//! plus one, and the very first variant without one starts at zero.  Every
//! tag must fit the wire's `u32` tag space; the first that does not is
//! reported, so the failure can be raised when the type is declared.

use vstd::prelude::*;

verus! {

/// The tag of variant `i`, given each variant's optional explicit
/// discriminant.
pub open spec fn spec_tag(discs: Seq<Option<u64>>, i: int) -> int
    decreases i,
{
    match discs[i] {
        Option::Some(d) => d as int,
        Option::None => if i <= 0 {
            0
        } else {
            spec_tag(discs, i - 1) + 1
        },
    }
}

/// A discriminant that does not fit the `u32` tag space, and where it stands.
#[derive(Debug, PartialEq)]
pub struct TagOverflow {
    pub index: usize,
    pub tag: u64,
}

/// Assigns every variant its tag, or reports the first discriminant that
/// does not fit a `u32`.
pub fn variant_tags(discs: &Vec<Option<u64>>) -> (r: Result<Vec<u32>, TagOverflow>)
    ensures
        match r {
            Ok(tags) => {
                &&& tags@.len() == discs@.len()
                &&& forall|i: int|
                    0 <= i < discs@.len() ==> #[trigger] spec_tag(discs@, i) <= u32::MAX
                        && tags@[i] == spec_tag(discs@, i)
            },
            Err(o) => {
                &&& o.index < discs@.len()
                &&& spec_tag(discs@, o.index as int) > u32::MAX
                &&& o.tag == spec_tag(discs@, o.index as int)
                &&& forall|j: int| 0 <= j < o.index ==> #[trigger] spec_tag(discs@, j) <= u32::MAX
            },
        },
{
    let mut tags: Vec<u32> = Vec::new();
    let mut cur: u64 = 0;
    let mut i: usize = 0;
    while i < discs.len()
        invariant
            i <= discs@.len(),
            tags@.len() == i,
            forall|j: int|
                0 <= j < i ==> #[trigger] spec_tag(discs@, j) <= u32::MAX && tags@[j] == spec_tag(
                    discs@,
                    j,
                ),
            i > 0 ==> cur == spec_tag(discs@, i - 1) && cur <= u32::MAX,
        decreases discs@.len() - i,
    {
        let tag: u64 = match discs[i] {
            Some(d) => d,
            None => if i == 0 {
                0
            } else {
                cur + 1
            },
        };
        assert(tag == spec_tag(discs@, i as int));
        if tag > 0xFFFF_FFFF {
            return Err(TagOverflow { index: i, tag });
        }
        tags.push(tag as u32);
        cur = tag;
        i = i + 1;
    }
    Ok(tags)
}

} // verus!
