//! The operator-command history: most recent first, deduplicated against
//! the front, capped at one hundred entries.  Loading and saving the file
//! that backs it happens outside the library.

use vstd::prelude::*;

verus! {

/// The persisted session metadata.
pub struct Meta {
    pub cmds: Vec<String>,
}

/// Character-exact string equality.
pub fn str_eq(a: &str, b: &str) -> (r: bool)
    ensures
        r == (a@ == b@),
{
    let n = a.unicode_len();
    let m = b.unicode_len();
    if n != m {
        proof {
            assert(a@ != b@);
        }
        return false;
    }
    let mut i: usize = 0;
    while i < n
        invariant
            i <= n == a@.len(),
            n == b@.len(),
            forall|k: int| 0 <= k < i ==> a@[k] == b@[k],
        decreases n - i,
    {
        if a.get_char(i) != b.get_char(i) {
            return false;
        }
        i = i + 1;
    }
    proof {
        assert(a@ =~= b@);
    }
    true
}

impl Meta {
    /// An empty history.
    pub fn new() -> (m: Meta)
        ensures
            m.cmds@.len() == 0,
    {
        Meta { cmds: Vec::new() }
    }

    /// Records a command at the front of the history, unless it repeats the
    /// front entry; the history keeps at most one hundred commands.
    pub fn log_command(&mut self, cmd: &str)
        ensures
            old(self).cmds@.len() > 0 && old(self).cmds@[0]@ == cmd@ ==> final(self).cmds@ == old(
                self).cmds@,
            !(old(self).cmds@.len() > 0 && old(self).cmds@[0]@ == cmd@) ==> {
                &&& final(self).cmds@.len() == vstd::math::min(old(self).cmds@.len() as int + 1,
                    100)
                &&& final(self).cmds@[0]@ == cmd@
                &&& forall|i: int|
                    1 <= i < final(self).cmds@.len() ==> #[trigger] final(self).cmds@[i] == old(
                        self).cmds@[i - 1]
            },
    {
        if self.cmds.len() > 0 {
            let same = str_eq(self.cmds[0].as_str(), cmd);
            if same {
                return ;
            }
        }
        self.cmds.insert(0, cmd.to_owned());
        if self.cmds.len() > 100 {
            self.cmds.truncate(100);
        }
        proof {
            if old(self).cmds@.len() + 1 > 100 {
                assert(self.cmds@ =~= old(self).cmds@.insert(0, self.cmds@[0]).take(100));
            }
        }
    }
}

} // verus!
