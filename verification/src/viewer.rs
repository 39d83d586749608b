use vstd::prelude::*;

use crate::error::ApiError;
use crate::strutil::str_eq;

verus! {

/// The closed set of roles, resolved once at the trust boundary.  The core
/// never matches on raw role strings.
#[derive(Debug, Clone, Copy, PartialEq, Eq, Structural)]
pub enum Role {
    Admin,
    Organizer,
    Player,
}

/// The authenticated context every core operation receives: a role, the
/// acting player and the tenant, already cryptographically validated by the
/// excluded transport layer.
pub struct Viewer {
    pub role: Role,
    pub player_id: String,
    pub tenant_id: i64,
    pub tenant_name: String,
}

impl Clone for Viewer {
    fn clone(&self) -> (r: Self)
        ensures
            r == *self,
    {
        Viewer {
            role: self.role,
            player_id: self.player_id.clone(),
            tenant_id: self.tenant_id,
            tenant_name: self.tenant_name.clone(),
        }
    }
}

/// The role a credential's role claim denotes, if any.
pub open spec fn spec_role_of(s: Seq<char>) -> Option<Role> {
    if s == "admin"@ {
        Some(Role::Admin)
    } else if s == "organizer"@ {
        Some(Role::Organizer)
    } else if s == "player"@ {
        Some(Role::Player)
    } else {
        None
    }
}

/// Resolves a role claim into the closed role set.
pub fn role_from_str(s: &str) -> (r: Option<Role>)
    ensures
        r == spec_role_of(s@),
{
    proof {
        reveal_strlit("admin");
        reveal_strlit("organizer");
        reveal_strlit("player");
    }
    if str_eq(s, "admin") {
        Some(Role::Admin)
    } else if str_eq(s, "organizer") {
        Some(Role::Organizer)
    } else if str_eq(s, "player") {
        Some(Role::Player)
    } else {
        None
    }
}

/// Whether a set of decoded claims yields a viewer for the tenant resolved
/// from the request's host: the subject and role claims must be present,
/// the role must be one of the closed set, the audience must name exactly
/// the resolved tenant, and the administrative tenant admits only the admin
/// role.
pub open spec fn claims_accepted(
    sub: Option<String>,
    role_claim: Option<String>,
    aud: Seq<Seq<char>>,
    tenant_name: Seq<char>,
) -> bool {
    &&& sub is Some
    &&& role_claim matches Some(rc) && spec_role_of(rc@) is Some
    &&& aud.len() == 1
    &&& (tenant_name == "admin"@ ==> spec_role_of(role_claim->0@) == Some(Role::Admin))
    &&& aud[0] == tenant_name
}

/// The decision core of credential parsing: turns decoded claims plus the
/// tenant resolved from the host into a viewer, or rejects them.  Decoding
/// and signature validation happen outside the core.
pub fn viewer_from_claims(
    sub: Option<String>,
    role_claim: Option<String>,
    aud: Vec<String>,
    tenant_name: String,
    tenant_id: i64,
) -> (r: Result<Viewer, ApiError>)
    ensures
        r is Ok <==> claims_accepted(sub, role_claim, aud.deep_view(), tenant_name@),
        r is Err ==> r == Err::<Viewer, ApiError>(ApiError::Unauthorized),
        r matches Ok(v) ==> {
            &&& Some(v.role) == spec_role_of(role_claim->0@)
            &&& sub matches Some(s) && v.player_id == s
            &&& v.tenant_id == tenant_id
            &&& v.tenant_name == tenant_name
        },
{
    proof {
        reveal_strlit("admin");
    }
    let player_id = match sub {
        Some(s) => s,
        None => {
            return Err(ApiError::Unauthorized);
        },
    };
    let role_str = match role_claim {
        Some(rc) => rc,
        None => {
            return Err(ApiError::Unauthorized);
        },
    };
    let role = match role_from_str(role_str.as_str()) {
        Some(role) => role,
        None => {
            return Err(ApiError::Unauthorized);
        },
    };
    if aud.len() != 1 {
        return Err(ApiError::Unauthorized);
    }
    if str_eq(tenant_name.as_str(), "admin") && !matches!(role, Role::Admin) {
        return Err(ApiError::Unauthorized);
    }
    if !str_eq(tenant_name.as_str(), aud[0].as_str()) {
        proof {
            assert(aud.deep_view()[0] == aud@[0]@);
        }
        return Err(ApiError::Unauthorized);
    }
    proof {
        assert(aud.deep_view()[0] == aud@[0]@);
    }
    Ok(Viewer { role, player_id, tenant_id, tenant_name })
}

} // verus!
