//! The structured semantic version that the version oracle supplies, and
//! the composition of its display string.

use vstd::prelude::*;
use vstd::string::*;

use crate::project::entry_views;
use crate::text::{dec_str, dot_join, u64_to_dec};

verus! {

/// A semantic version with build metadata, as derived from the source
/// tree's version-control history.
pub struct Version {
    /// The major component.
    pub major: u64,
    /// The minor component.
    pub minor: u64,
    /// The patch component.
    pub patch: u64,
    /// The build-metadata identifiers; the first is always the abbreviated
    /// commit id.
    pub build: Vec<String>,
}

/// The display string `<major>.<minor>.<patch>[+<metadata>]`, the metadata
/// identifiers joined with `.`.
pub open spec fn version_seq(v: &Version) -> Seq<char> {
    let core = dec_str(v.major as nat) + seq!['.'] + dec_str(v.minor as nat) + seq!['.'] + dec_str(
        v.patch as nat,
    );
    if v.build@.len() == 0 {
        core
    } else {
        core + seq!['+'] + dot_join(entry_views(v.build@))
    }
}

impl Version {
    /// The first build-metadata identifier is the abbreviated commit id.
    pub open spec fn wf(&self) -> bool {
        self.build@.len() >= 1
    }

    /// The abbreviated commit id.
    pub fn sha(&self) -> (r: &String)
        requires
            self.wf(),
        ensures
            r@ == self.build@[0]@,
    {
        &self.build[0]
    }

    /// The full version string.
    pub fn version_string(&self) -> (r: String)
        ensures
            r@ == version_seq(self),
    {
        let mut s = u64_to_dec(self.major);
        s.append(".");
        let minor = u64_to_dec(self.minor);
        s.append(minor.as_str());
        s.append(".");
        let patch = u64_to_dec(self.patch);
        s.append(patch.as_str());
        proof {
            reveal_strlit(".");
        }
        let nb = self.build.len();
        if nb > 0 {
            s.append("+");
            s.append(self.build[0].as_str());
            proof {
                reveal_strlit("+");
                assert(entry_views(self.build@).take(1).len() == 1);
                assert(entry_views(self.build@).take(1)[0] == self.build@[0]@);
                assert(dot_join(entry_views(self.build@).take(1)) == self.build@[0]@);
            }
            let mut i: usize = 1;
            while i < nb
                invariant
                    nb == self.build@.len(),
                    1 <= i <= nb,
                    s@ == dec_str(self.major as nat) + seq!['.'] + dec_str(self.minor as nat)
                        + seq!['.'] + dec_str(self.patch as nat) + seq!['+'] + dot_join(
                        entry_views(self.build@).take(i as int),
                    ),
                decreases nb - i,
            {
                s.append(".");
                s.append(self.build[i].as_str());
                proof {
                    reveal_strlit(".");
                    let t = entry_views(self.build@).take(i + 1);
                    assert(t.drop_last() =~= entry_views(self.build@).take(i as int));
                    assert(t.last() == self.build@[i as int]@);
                    assert(s@ =~= dec_str(self.major as nat) + seq!['.'] + dec_str(
                        self.minor as nat,
                    ) + seq!['.'] + dec_str(self.patch as nat) + seq!['+'] + dot_join(t));
                }
                i = i + 1;
            }
            proof {
                assert(entry_views(self.build@).take(nb as int) =~= entry_views(self.build@));
            }
            s
        } else {
            proof {
                assert(s@ =~= version_seq(self));
            }
            s
        }
    }
}

} // verus!
