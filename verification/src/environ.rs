//! Environment-derived settings: the invoking user's id and the paths
//! built from it.  Reading the process environment happens outside this
//! crate; `construct` takes the raw variable value and does everything
//! that can be checked.

use vstd::prelude::*;
use crate::text::str_chars;

verus! {

/// The settings the daemon derives from its environment.
#[derive(Debug)]
pub struct Env {
    pub pkexec_id: u32,
    pub config_folder_location: String,
    pub runtime_socket: String,
    pub runtime_dir: String,
}

/// What can be wrong with the environment.
#[derive(Debug)]
pub enum EnvError {
    PkexecNotFound,
    GenericError(String),
}

/// Whether every character is a decimal digit.
pub open spec fn all_digits(s: Seq<char>) -> bool {
    forall|i: int| 0 <= i < s.len() ==> '0' <= #[trigger] s[i] <= '9'
}

/// The number named by a digit string.
pub open spec fn digits_val(s: Seq<char>) -> int
    decreases s.len(),
{
    if s.len() == 0 {
        0
    } else {
        digits_val(s.drop_last()) * 10 + (s.last() as int - '0' as int)
    }
}

/// The value of a decimal string, when it is one and fits in `u32`.
pub open spec fn spec_parse_u32(s: Seq<char>) -> Option<u32> {
    if s.len() > 0 && all_digits(s) && digits_val(s) <= u32::MAX {
        Some(digits_val(s) as u32)
    } else {
        None
    }
}

proof fn lemma_digits_val_bounds(s: Seq<char>)
    requires
        all_digits(s),
    ensures
        digits_val(s) >= 0,
        forall|j: int| 0 <= j <= s.len() ==> #[trigger] digits_val(s.take(j)) <= digits_val(s),
    decreases s.len(),
{
    if s.len() == 0 {
        assert forall|j: int| 0 <= j <= s.len() implies #[trigger] digits_val(s.take(j))
            <= digits_val(s) by {
            assert(s.take(j) =~= s);
        }
    } else {
        assert(all_digits(s.drop_last()));
        lemma_digits_val_bounds(s.drop_last());
        assert(s.last() as int - '0' as int >= 0);
        assert(digits_val(s) >= digits_val(s.drop_last()));
        assert forall|j: int| 0 <= j <= s.len() implies #[trigger] digits_val(s.take(j))
            <= digits_val(s) by {
            if j < s.len() {
                assert(s.take(j) =~= s.drop_last().take(j));
            } else {
                assert(s.take(j) =~= s);
            }
        }
    }
}

/// Reads a decimal `u32`; anything else, including overflow, is `None`.
pub fn parse_u32(s: &Vec<char>) -> (r: Option<u32>)
    ensures
        r == spec_parse_u32(s@),
{
    if s.len() == 0 {
        return None;
    }
    let mut acc: u32 = 0;
    let mut i: usize = 0;
    while i < s.len()
        invariant
            i <= s@.len(),
            all_digits(s@.take(i as int)),
            acc == digits_val(s@.take(i as int)),
        decreases s@.len() - i,
    {
        let c = s[i];
        if !('0' <= c && c <= '9') {
            proof {
                assert(!all_digits(s@));
            }
            return None;
        }
        let d: u32 = (c as u32) - 48;
        if acc > (u32::MAX - d) / 10 {
            proof {
                assert(s@.take((i + 1) as int) =~= s@.take(i as int).push(c));
                assert(s@.take((i + 1) as int).drop_last() =~= s@.take(i as int));
                assert(digits_val(s@.take(i + 1)) == acc * 10 + d);
                assert(digits_val(s@.take(i + 1)) > u32::MAX);
                if all_digits(s@) {
                    lemma_digits_val_bounds(s@);
                    assert(digits_val(s@.take(i + 1)) <= digits_val(s@));
                }
            }
            return None;
        }
        proof {
            assert(s@.take((i + 1) as int) =~= s@.take(i as int).push(c));
            assert(s@.take((i + 1) as int).drop_last() =~= s@.take(i as int));
        }
        acc = acc * 10 + d;
        i += 1;
    }
    proof {
        assert(s@.take(i as int) =~= s@);
    }
    Some(acc)
}

/// The canonical decimal digits of `n`, most significant first.
pub open spec fn spec_u32_digits(n: int) -> Seq<char>
    decreases n,
{
    if n < 10 {
        seq![((48 + (if n >= 0 { n } else { 0 }) % 10) as u8) as char]
    } else {
        spec_u32_digits(n / 10).push(((48 + n % 10) as u8) as char)
    }
}

/// Writes `n` in decimal.
pub fn u32_digits(n: u32) -> (r: Vec<char>)
    ensures
        r@ == spec_u32_digits(n as int),
    decreases n,
{
    if n < 10 {
        let mut r: Vec<char> = Vec::new();
        r.push(((48 + (n % 10)) as u8) as char);
        proof {
            assert(r@ =~= spec_u32_digits(n as int));
        }
        r
    } else {
        let mut r = u32_digits(n / 10);
        r.push(((48 + (n % 10)) as u8) as char);
        r
    }
}

impl Env {
    /// Builds the environment from the raw `PKEXEC_UID` value: a
    /// missing variable is `PkexecNotFound`, a value that is not a
    /// decimal user id is a generic error, and otherwise the
    /// configuration root is `/etc` and the runtime directory and
    /// socket live under `/run/user/<id>`.
    pub fn construct(pkexec_uid: Option<String>) -> (r: Result<Env, EnvError>)
        ensures
            pkexec_uid is None ==> (r matches Err(e) && e is PkexecNotFound),
            (pkexec_uid matches Some(v) ==> ((spec_parse_u32(v@) is None ==> (r matches Err(e) && e
                is GenericError)) && (spec_parse_u32(v@) matches Some(id) ==> (r matches Ok(env)
                && env.pkexec_id == id && env.config_folder_location@ == "/etc"@
                && env.runtime_dir@ == "/run/user/"@ + spec_u32_digits(id as int)
                && env.runtime_socket@ == env.runtime_dir@)))),
    {
        let v = match pkexec_uid {
            None => {
                return Err(EnvError::PkexecNotFound);
            },
            Some(v) => v,
        };
        let chars = str_chars(v.as_str());
        let id = match parse_u32(&chars) {
            None => {
                return Err(
                    EnvError::GenericError(String::from_str("PKEXEC_UID is not a valid user id")),
                );
            },
            Some(id) => id,
        };
        let digits = u32_digits(id);
        let tail = crate::text::chars_string(&digits);
        let base = String::from_str("/run/user/");
        let runtime_dir = base.concat(tail.as_str());
        let runtime_socket = runtime_dir.clone();
        Ok(
            Env {
                pkexec_id: id,
                config_folder_location: String::from_str("/etc"),
                runtime_socket,
                runtime_dir,
            },
        )
    }

    /// The configuration file path under the configuration root.
    pub fn fetch_config_path(&self) -> (r: String)
        ensures
            r@ == self.config_folder_location@ + "/swhkd/swhkdrc"@,
    {
        let base = self.config_folder_location.clone();
        base.concat("/swhkd/swhkdrc")
    }

    /// The command socket path under the runtime directory.
    pub fn fetch_runtime_socket_path(&self) -> (r: String)
        ensures
            r@ == self.runtime_dir@ + "/swhkd.sock"@,
    {
        let base = self.runtime_dir.clone();
        base.concat("/swhkd.sock")
    }
}

} // verus!
