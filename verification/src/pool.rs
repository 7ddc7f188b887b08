//! The textures that a baker keeps between bakes, and the size of a dispatch.
use vstd::prelude::*;

verus! {

/// Texels along the side of a workgroup.
pub const WORKGROUP_SIDE: u32 = 8;

/// The least number of groups that cover that many texels.
pub open spec fn groups_covering(n: int) -> int {
    (n + WORKGROUP_SIDE - 1) / WORKGROUP_SIDE as int
}

/// How many workgroups cover a texture of that size.
pub fn workgroup_counts(size: (u32, u32)) -> (r: (u32, u32))
    requires
        size.0 <= u32::MAX - 7,
        size.1 <= u32::MAX - 7,
    ensures
        r.0 == groups_covering(size.0 as int),
        r.1 == groups_covering(size.1 as int),
{
    ((size.0 + 7) / 8, (size.1 + 7) / 8)
}

/// Every texel lies in a group, and no group lies outside.
pub proof fn law_workgroups_cover(n: int)
    requires
        n >= 0,
    ensures
        WORKGROUP_SIDE * groups_covering(n) >= n,
        WORKGROUP_SIDE * groups_covering(n) < n + WORKGROUP_SIDE,
{
}

/// A dispatch has a group for every 8 texels along each side of the texture, the
/// last of them perhaps in part.
pub proof fn law_dispatches_cover_both_sides(size: (u32, u32), r: (u32, u32))
    requires
        call_ensures(workgroup_counts, (size,), r),
    ensures
        8 * r.0 >= size.0 && 8 * r.1 >= size.1,
        8 * r.0 < size.0 + 8 && 8 * r.1 < size.1 + 8,
{
}

/// The textures that layers are computed into, and the one for unconnected
/// inputs. All have the same size.
#[derive(Clone, Copy, Debug, PartialEq, Eq)]
pub struct Pool {
    pub size: (u32, u32),
    pub count: u32,
    pub has_missing: bool,
}

/// What is done so that a pool serves a bake, in this order.
#[derive(Clone, Copy, Debug, PartialEq, Eq, Structural)]
pub struct PoolChange {
    /// Drop every texture.
    pub clear: bool,
    /// Make the texture for unconnected inputs.
    pub make_missing: bool,
    /// Make that many more.
    pub grow: u32,
}

/// `after` is `before` readied for a bake of that size with that many
/// textures, by the change `r`.
pub open spec fn readied(
    before: Pool,
    size: (u32, u32),
    needed: u32,
    after: Pool,
    r: PoolChange,
) -> bool {
    let kept = if r.clear {
        0
    } else {
        before.count
    };
    &&& after.size == size
    &&& after.has_missing
    &&& r.clear == (before.size != size)
    &&& r.make_missing == (r.clear || !before.has_missing)
    &&& after.count == (if kept < needed {
        needed
    } else {
        kept
    })
    &&& r.grow == after.count - kept
}

impl Pool {
    /// An empty pool of textures of no size.
    pub fn new() -> (r: Pool)
        ensures
            r == (Pool { size: (0, 0), count: 0, has_missing: false }),
    {
        Pool { size: (0, 0), count: 0, has_missing: false }
    }

    /// Has the pool hold at least `needed` textures of that size, and one for
    /// unconnected inputs. Textures of that size are kept; those of another are
    /// dropped.
    pub fn ensure(&mut self, size: (u32, u32), needed: u32) -> (r: PoolChange)
        ensures
            readied(*old(self), size, needed, *final(self), r),
            // A pool that serves already is left alone.
            old(self).size == size && old(self).has_missing && needed <= old(self).count ==> {
                &&& *final(self) == *old(self)
                &&& r == (PoolChange { clear: false, make_missing: false, grow: 0 })
            },
    {
        let clear = self.size.0 != size.0 || self.size.1 != size.1;
        if clear {
            self.count = 0;
            self.size = size;
            self.has_missing = false;
        }
        let make_missing = !self.has_missing;
        self.has_missing = true;
        let grow: u32 = if self.count < needed {
            needed - self.count
        } else {
            0
        };
        self.count = self.count + grow;
        PoolChange { clear, make_missing, grow }
    }
}

impl Default for Pool {
    fn default() -> (r: Self)
        ensures
            r == (Pool { size: (0, 0), count: 0, has_missing: false }),
    {
        Pool::new()
    }
}

/// A pool that was readied serves the bake: it has enough textures, all of the
/// size asked for, and one for unconnected inputs. Textures of that size are
/// never dropped, and only what is missing is made. Readying it again for no
/// more changes nothing.
pub proof fn law_readied_pool_serves(
    before: Pool,
    size: (u32, u32),
    needed: u32,
    after: Pool,
    r: PoolChange,
    fewer: u32,
    again: Pool,
    s: PoolChange,
)
    requires
        readied(before, size, needed, after, r),
        fewer <= needed,
        readied(after, size, fewer, again, s),
    ensures
        after.size.0 == size.0 && after.size.1 == size.1,
        after.count >= needed,
        after.has_missing,
        r.clear <==> before.size.0 != size.0 || before.size.1 != size.1,
        r.clear ==> r.make_missing && r.grow == needed && after.count == needed,
        !r.clear ==> {
            &&& r.make_missing <==> !before.has_missing
            &&& after.count == before.count + r.grow
            &&& r.grow > 0 ==> after.count == needed
        },
        again == after,
        !s.clear && !s.make_missing && s.grow == 0,
{
}

} // verus!
