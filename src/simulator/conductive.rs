use vstd::prelude::*;

verus! {

/// A channel value above this is bright enough to conduct.
pub const BRIGHTNESS_MIN: u8 = 223;

/// Some colour channel (every channel but the trailing alpha one) is brighter
/// than `BRIGHTNESS_MIN`.
pub open spec fn pixel_conductive(p: Seq<u8>) -> bool {
    exists|k: int| 0 <= k < p.len() - 1 && #[trigger] p[k] > BRIGHTNESS_MIN
}

/// Classifies one pixel, given as its channel values, as conductor or not.
pub trait Conductive {
    /// The pixel's channel values.
    spec fn channels(&self) -> Seq<u8>;

    fn is_conductive(&self) -> (r: bool)
        requires
            self.channels().len() >= 2,
        ensures
            r == pixel_conductive(self.channels()),
    ;
}

fn any_channel_bright(p: &[u8]) -> (r: bool)
    requires
        p@.len() >= 2,
    ensures
        r == pixel_conductive(p@),
{
    let n = p.len() - 1;
    let mut k: usize = 0;
    while k < n
        invariant
            n == p@.len() - 1,
            k <= n,
            forall|j: int| 0 <= j < k ==> p@[j] <= BRIGHTNESS_MIN,
        decreases n - k,
    {
        if p[k] > BRIGHTNESS_MIN {
            return true;
        }
        k += 1;
    }
    false
}

impl Conductive for &[u8] {
    open spec fn channels(&self) -> Seq<u8> {
        (*self)@
    }

    fn is_conductive(&self) -> (r: bool) {
        any_channel_bright(self)
    }
}

impl Conductive for &mut [u8] {
    open spec fn channels(&self) -> Seq<u8> {
        (**self)@
    }

    fn is_conductive(&self) -> (r: bool) {
        any_channel_bright(self)
    }
}

} // verus!
