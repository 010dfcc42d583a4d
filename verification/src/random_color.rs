//! The colours in which nodes are drawn.

use rand::Rng;
use vstd::prelude::*;

verus! {

/// A colour: red, green, blue.
pub type Rgb = (u8, u8, u8);

/// The colours to choose from.
pub open spec fn palette() -> Seq<Rgb> {
    seq![
        (0xffu8, 0u8, 0u8),
        (0u8, 0xffu8, 0u8),
        (0u8, 0u8, 0xffu8),
        (0xffu8, 0xffu8, 0u8),
        (0xffu8, 0u8, 0xffu8),
        (0u8, 0xffu8, 0xffu8),
        (0xffu8, 0u8, 0x44u8),
        (0xb8u8, 0x86u8, 0x0bu8),
        (0xbcu8, 0x8fu8, 0x8fu8),
        (0xcdu8, 0x5cu8, 0x5cu8),
        (0x8bu8, 0x45u8, 0x13u8),
        (0xa0u8, 0x52u8, 0x2du8),
        (0xcdu8, 0x85u8, 0x3fu8),
        (0xdeu8, 0xb8u8, 0x87u8),
        (0xf5u8, 0xf5u8, 0xdcu8),
        (0xf5u8, 0xdeu8, 0xb3u8),
        (0xf4u8, 0xa4u8, 0x60u8),
        (0xd2u8, 0xb4u8, 0x8cu8),
        (0xd2u8, 0x69u8, 0x1eu8),
        (0xb2u8, 0x22u8, 0x22u8),
        (0xa5u8, 0x2au8, 0x2au8),
        (0xe9u8, 0x96u8, 0x7au8),
        (0xfau8, 0x80u8, 0x72u8),
        (0xffu8, 0xa0u8, 0x7au8),
        (0xffu8, 0xa5u8, 0x00u8),
        (0xffu8, 0x8cu8, 0x00u8),
        (0xffu8, 0x7fu8, 0x50u8),
        (0xf0u8, 0x80u8, 0x80u8),
        (0xffu8, 0x63u8, 0x47u8),
        (0xffu8, 0x45u8, 0x00u8),
        (0xffu8, 0x69u8, 0xb4u8),
        (0xffu8, 0x14u8, 0x93u8),
        (0xffu8, 0xc0u8, 0xcbu8),
        (0xffu8, 0xb6u8, 0xc1u8),
        (0xdbu8, 0x70u8, 0x93u8),
        (0xb0u8, 0x30u8, 0x60u8),
        (0xc7u8, 0x15u8, 0x85u8),
        (0xd0u8, 0x20u8, 0x90u8),
        (0xffu8, 0x00u8, 0xffu8),
        (0xeeu8, 0x82u8, 0xeeu8),
        (0xddu8, 0xa0u8, 0xddu8),
        (0xdau8, 0x70u8, 0xd6u8),
        (0xbau8, 0x55u8, 0xd3u8),
        (0x99u8, 0x32u8, 0xccu8),
        (0x94u8, 0x00u8, 0xd3u8),
        (0x8au8, 0x2bu8, 0xe2u8),
        (0xa0u8, 0x20u8, 0xf0u8),
        (0x93u8, 0x70u8, 0xdbu8),
        (0xd8u8, 0xbfu8, 0xd8u8),
        (0xcdu8, 0xc9u8, 0xc9u8),
        (0x8bu8, 0x89u8, 0x89u8),
    ]
}

/// A list of colours from which the colour of a node is taken.
#[derive(Debug)]
pub struct RandomColor {
    pub colors_list: Vec<Rgb>,
}

/// Calls `thread_rng` of rand and, on what it gives, `Rng::gen_range` with
/// 0 and `len`: a number from 0 up to but not including `len`, and a
/// different one from call to call. That the number is below `len` is taken
/// from the documentation of `gen_range`, and not proved. `gen_range` asserts
/// that its lower limit is below its upper limit, which is why `len` must
/// not be 0. `thread_rng` ends the program if the system has no random
/// numbers to seed it with.
#[verifier::external_body]
fn random_index(len: usize) -> (i: usize)
    requires
        len > 0,
    ensures
        i < len,
{
    rand::thread_rng().gen_range(0, len)
}

impl RandomColor {
    /// The list holds a colour.
    pub open spec fn wf(&self) -> bool {
        self.colors_list@.len() > 0
    }

    /// The list of the colours of [`palette`].
    pub fn new() -> (r: RandomColor)
        ensures
            r.wf(),
            r.colors_list@ == palette(),
    {
        let r = RandomColor {
            colors_list: vec![
                (0xffu8, 0u8, 0u8),
                (0u8, 0xffu8, 0u8),
                (0u8, 0u8, 0xffu8),
                (0xffu8, 0xffu8, 0u8),
                (0xffu8, 0u8, 0xffu8),
                (0u8, 0xffu8, 0xffu8),
                (0xffu8, 0u8, 0x44u8),
                (0xb8u8, 0x86u8, 0x0bu8),
                (0xbcu8, 0x8fu8, 0x8fu8),
                (0xcdu8, 0x5cu8, 0x5cu8),
                (0x8bu8, 0x45u8, 0x13u8),
                (0xa0u8, 0x52u8, 0x2du8),
                (0xcdu8, 0x85u8, 0x3fu8),
                (0xdeu8, 0xb8u8, 0x87u8),
                (0xf5u8, 0xf5u8, 0xdcu8),
                (0xf5u8, 0xdeu8, 0xb3u8),
                (0xf4u8, 0xa4u8, 0x60u8),
                (0xd2u8, 0xb4u8, 0x8cu8),
                (0xd2u8, 0x69u8, 0x1eu8),
                (0xb2u8, 0x22u8, 0x22u8),
                (0xa5u8, 0x2au8, 0x2au8),
                (0xe9u8, 0x96u8, 0x7au8),
                (0xfau8, 0x80u8, 0x72u8),
                (0xffu8, 0xa0u8, 0x7au8),
                (0xffu8, 0xa5u8, 0x00u8),
                (0xffu8, 0x8cu8, 0x00u8),
                (0xffu8, 0x7fu8, 0x50u8),
                (0xf0u8, 0x80u8, 0x80u8),
                (0xffu8, 0x63u8, 0x47u8),
                (0xffu8, 0x45u8, 0x00u8),
                (0xffu8, 0x69u8, 0xb4u8),
                (0xffu8, 0x14u8, 0x93u8),
                (0xffu8, 0xc0u8, 0xcbu8),
                (0xffu8, 0xb6u8, 0xc1u8),
                (0xdbu8, 0x70u8, 0x93u8),
                (0xb0u8, 0x30u8, 0x60u8),
                (0xc7u8, 0x15u8, 0x85u8),
                (0xd0u8, 0x20u8, 0x90u8),
                (0xffu8, 0x00u8, 0xffu8),
                (0xeeu8, 0x82u8, 0xeeu8),
                (0xddu8, 0xa0u8, 0xddu8),
                (0xdau8, 0x70u8, 0xd6u8),
                (0xbau8, 0x55u8, 0xd3u8),
                (0x99u8, 0x32u8, 0xccu8),
                (0x94u8, 0x00u8, 0xd3u8),
                (0x8au8, 0x2bu8, 0xe2u8),
                (0xa0u8, 0x20u8, 0xf0u8),
                (0x93u8, 0x70u8, 0xdbu8),
                (0xd8u8, 0xbfu8, 0xd8u8),
                (0xcdu8, 0xc9u8, 0xc9u8),
                (0x8bu8, 0x89u8, 0x89u8),
            ],
        };
        proof {
            assert(r.colors_list@ =~= palette());
        }
        r
    }

    /// The colour for a number: the colours are gone through in their
    /// order, again and again.
    pub fn get_a_color(&self, index: usize) -> (r: Rgb)
        requires
            self.wf(),
        ensures
            r == self.colors_list@[index as int % self.colors_list@.len() as int],
    {
        self.colors_list[index % self.colors_list.len()]
    }

    /// One of the colours, whichever.
    pub fn get_random_color(&self) -> (r: Rgb)
        requires
            self.wf(),
        ensures
            self.colors_list@.contains(r),
    {
        let list_length = self.colors_list.len();
        let i = random_index(list_length);
        self.color_at(i)
    }

    /// The colour at a place of the list.
    pub fn color_at(&self, i: usize) -> (r: Rgb)
        requires
            i < self.colors_list@.len(),
        ensures
            r == self.colors_list@[i as int],
            self.colors_list@.contains(r),
    {
        self.colors_list[i]
    }
}

} // verus!
