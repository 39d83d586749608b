use vstd::prelude::*;
use vstd::string::StringExecFns;
use vstd::string::StrSliceExecFns;

use crate::error::ApiError;
use crate::num::dec_seq_i64;
use crate::num::dec_string_i64;

verus! {

/// A row of the shared store's tenant registry.
pub struct Tenant {
    pub id: i64,
    pub name: String,
    pub display_name: String,
    pub created_at: i64,
    pub updated_at: i64,
}

// ---------------------------------------------------------------------------
// Tenant name validation
// ---------------------------------------------------------------------------

pub open spec fn is_lower(c: char) -> bool {
    'a' as u32 <= c as u32 <= 'z' as u32
}

pub open spec fn is_lower_or_digit(c: char) -> bool {
    is_lower(c) || ('0' as u32 <= c as u32 <= '9' as u32)
}

pub open spec fn is_name_char(c: char) -> bool {
    is_lower_or_digit(c) || c == '-'
}

/// The tenant name grammar: a lowercase letter, then up to 61 characters
/// drawn from lowercase letters, digits and `'-'`, ending in a lowercase
/// letter or digit.  Names are thus 2 to 63 characters long.
pub open spec fn valid_tenant_name(s: Seq<char>) -> bool {
    &&& 2 <= s.len() <= 63
    &&& is_lower(s[0])
    &&& is_lower_or_digit(s[s.len() - 1])
    &&& forall|i: int| 0 < i < s.len() - 1 ==> is_name_char(#[trigger] s[i])
}

/// Checks a tenant name against the grammar above.
pub fn validate_tenant_name(name: &str) -> (r: Result<(), ApiError>)
    ensures
        r is Ok <==> valid_tenant_name(name@),
        r is Err ==> r == Err::<(), ApiError>(ApiError::InvalidTenantName),
{
    let n = name.unicode_len();
    if n < 2 || n > 63 {
        return Err(ApiError::InvalidTenantName);
    }
    let c0 = name.get_char(0);
    if (c0 as u32) < 'a' as u32 || (c0 as u32) > 'z' as u32 {
        return Err(ApiError::InvalidTenantName);
    }
    let cl = name.get_char(n - 1);
    let ul = cl as u32;
    if !(('a' as u32 <= ul && ul <= 'z' as u32) || ('0' as u32 <= ul && ul <= '9' as u32)) {
        return Err(ApiError::InvalidTenantName);
    }
    let mut i: usize = 1;
    while i < n - 1
        invariant
            1 <= i <= n - 1,
            2 <= n <= 63,
            n == name@.len(),
            forall|j: int| 0 < j < i ==> is_name_char(#[trigger] name@[j]),
        decreases n - 1 - i,
    {
        let c = name.get_char(i);
        let u = c as u32;
        let ok = ('a' as u32 <= u && u <= 'z' as u32) || ('0' as u32 <= u && u <= '9' as u32)
            || c == '-';
        if !ok {
            proof {
                assert(!is_name_char(name@[i as int]));
            }
            return Err(ApiError::InvalidTenantName);
        }
        i = i + 1;
    }
    Ok(())
}

// ---------------------------------------------------------------------------
// Store and lock addressing
// ---------------------------------------------------------------------------

/// The path of a tenant's isolated store: `{dir}/{id}.db`.
pub open spec fn tenant_db_path_spec(dir: Seq<char>, id: int) -> Seq<char> {
    dir + seq!['/'] + dec_seq_i64(id) + seq!['.', 'd', 'b']
}

/// The path of a tenant's lock resource: `{dir}/{id}.lock`.
pub open spec fn lock_file_path_spec(dir: Seq<char>, id: int) -> Seq<char> {
    dir + seq!['/'] + dec_seq_i64(id) + seq!['.', 'l', 'o', 'c', 'k']
}

/// The deterministic location of a tenant's isolated store, derived purely
/// from the tenant id under the given data directory.
pub fn tenant_db_path(dir: &str, id: i64) -> (r: String)
    ensures
        r@ == tenant_db_path_spec(dir@, id as int),
{
    proof {
        reveal_strlit("/");
        reveal_strlit(".db");
    }
    let mut s = dir.to_owned();
    s.append("/");
    s.append(dec_string_i64(id).as_str());
    s.append(".db");
    proof {
        assert(s@ =~= tenant_db_path_spec(dir@, id as int));
    }
    s
}

/// The deterministic location of a tenant's lock resource, derived purely
/// from the tenant id under the given data directory.
pub fn lock_file_path(dir: &str, id: i64) -> (r: String)
    ensures
        r@ == lock_file_path_spec(dir@, id as int),
{
    proof {
        reveal_strlit("/");
        reveal_strlit(".lock");
    }
    let mut s = dir.to_owned();
    s.append("/");
    s.append(dec_string_i64(id).as_str());
    s.append(".lock");
    proof {
        assert(s@ =~= lock_file_path_spec(dir@, id as int));
    }
    s
}

} // verus!
