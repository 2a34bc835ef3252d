use crate::record::PathWithMetadata;
use vstd::prelude::*;

verus! {

/// The records found on one device.
#[derive(Clone, Copy, Debug, PartialEq, Eq, Structural)]
pub struct DeviceGroup {
    pub dev: u64,
    /// How many records are on the device.
    pub count: usize,
    /// The index of the first record on the device.
    pub example: usize,
}

/// How many of `s` are on device `dev`.
pub open spec fn count_on(s: Seq<PathWithMetadata>, dev: u64) -> nat
    decreases s.len(),
{
    if s.len() == 0 {
        0
    } else {
        count_on(s.drop_last(), dev) + if s.last().md.dev == dev {
            1nat
        } else {
            0nat
        }
    }
}

/// All records are on one device.
pub open spec fn one_device(s: Seq<PathWithMetadata>) -> bool {
    forall|i: int, j: int| 0 <= i < s.len() && 0 <= j < s.len() ==> s[i].md.dev == s[j].md.dev
}

/// A faithful account of the devices of `s`: one group per device, with
/// its exact count and an example record.
pub open spec fn device_report(s: Seq<PathWithMetadata>, gs: Seq<DeviceGroup>) -> bool {
    &&& forall|g: int, h: int| 0 <= g < h < gs.len() ==> #[trigger] gs[g].dev != #[trigger] gs[h].dev
    &&& forall|g: int|
        0 <= g < gs.len() ==> (#[trigger] gs[g]).count == count_on(s, gs[g].dev) && gs[g].example
            < s.len() && s[gs[g].example as int].md.dev == gs[g].dev
    &&& forall|i: int| 0 <= i < s.len() ==> has_group(gs, #[trigger] s[i].md.dev)
}

/// Some group of `gs` is for device `dev`.
pub open spec fn has_group(gs: Seq<DeviceGroup>, dev: u64) -> bool {
    exists|g: int| 0 <= g < gs.len() && #[trigger] gs[g].dev == dev
}

/// Hardlinks cannot cross devices: a target set whose records lie on more
/// than one device is refused before any work, with the device account.
pub fn check_all_same_device(pwmds: &[PathWithMetadata]) -> (r: Result<(), Vec<DeviceGroup>>)
    ensures
        r is Ok <==> one_device(pwmds@),
        r matches Err(gs) ==> gs@.len() >= 2 && device_report(pwmds@, gs@),
{
    let ghost s = pwmds@;
    let mut groups: Vec<DeviceGroup> = Vec::new();
    let mut i: usize = 0;
    while i < pwmds.len()
        invariant
            s == pwmds@,
            i <= s.len(),
            device_report(s.subrange(0, i as int), groups@),
            forall|g: int| 0 <= g < groups@.len() ==> #[trigger] groups@[g].count <= i,
            forall|d: u64|
                (forall|g: int| 0 <= g < groups@.len() ==> #[trigger] groups@[g].dev != d) ==> count_on(
                    s.subrange(0, i as int),
                    d,
                ) == 0,
        decreases s.len() - i,
    {
        let dev = pwmds[i].md.dev;
        let ghost pre = s.subrange(0, i as int);
        let ghost post = s.subrange(0, i as int + 1);
        assert(post.drop_last() =~= pre);
        let mut g: usize = 0;
        while g < groups.len() && groups[g].dev != dev
            invariant
                g <= groups@.len(),
                forall|h: int| 0 <= h < g ==> #[trigger] groups@[h].dev != dev,
            decreases groups@.len() - g,
        {
            g += 1;
        }
        let ghost old_groups = groups@;
        if g < groups.len() {
            let grp = groups[g];
            groups.set(g, DeviceGroup { dev, count: grp.count + 1, example: grp.example });
        } else {
            groups.push(DeviceGroup { dev, count: 1, example: i });
        }
        proof {
            assert(post.last().md.dev == dev);
            assert forall|d: u64| #[trigger] count_on(post, d) == count_on(pre, d) + if dev == d {
                1nat
            } else {
                0nat
            } by {}
            if g == old_groups.len() {
                assert(count_on(pre, dev) == 0);
            }
            assert forall|gg: int|
                0 <= gg < groups@.len() implies (#[trigger] groups@[gg]).count == count_on(post, groups@[gg].dev)
                && groups@[gg].example < post.len() && post[groups@[gg].example as int].md.dev == groups@[gg].dev by {
                assert(count_on(post, groups@[gg].dev) == count_on(pre, groups@[gg].dev) + if dev == groups@[gg].dev {
                    1nat
                } else {
                    0nat
                });
                if gg < old_groups.len() {
                    assert(pre[old_groups[gg].example as int] == post[old_groups[gg].example as int]);
                }
            }
            assert forall|j: int| 0 <= j < post.len() implies has_group(groups@, #[trigger] post[j].md.dev) by {
                if j < i {
                    assert(pre[j] == post[j]);
                    assert(has_group(old_groups, pre[j].md.dev));
                    let gg = choose|gg: int| 0 <= gg < old_groups.len() && #[trigger] old_groups[gg].dev == pre[j].md.dev;
                    assert(groups@[gg].dev == post[j].md.dev);
                } else {
                    assert(groups@[g as int].dev == post[j].md.dev);
                }
            }
            assert forall|d: u64|
                (forall|gg: int| 0 <= gg < groups@.len() ==> #[trigger] groups@[gg].dev != d) implies count_on(post, d) == 0 by {
                assert forall|gg: int| 0 <= gg < old_groups.len() implies #[trigger] old_groups[gg].dev != d by {
                    assert(groups@[gg].dev == old_groups[gg].dev);
                }
                assert(groups@[g as int].dev == dev);
                assert(count_on(post, d) == count_on(pre, d) + if dev == d {
                    1nat
                } else {
                    0nat
                });
            }
        }
        i += 1;
    }
    assert(s.subrange(0, s.len() as int) =~= s);
    if groups.len() <= 1 {
        proof {
            assert forall|a: int, b: int| 0 <= a < s.len() && 0 <= b < s.len() implies s[a].md.dev == s[b].md.dev by {
                assert(has_group(groups@, s[a].md.dev));
                assert(has_group(groups@, s[b].md.dev));
                let ga = choose|gg: int| 0 <= gg < groups@.len() && #[trigger] groups@[gg].dev == s[a].md.dev;
                let gb = choose|gg: int| 0 <= gg < groups@.len() && #[trigger] groups@[gg].dev == s[b].md.dev;
            }
        }
        Ok(())
    } else {
        proof {
            let e0 = groups@[0].example as int;
            let e1 = groups@[1].example as int;
            assert(s[e0].md.dev != s[e1].md.dev);
        }
        Err(groups)
    }
}

} // verus!
