//! Extraction of services into plugin `apply` arguments.
//!
//! - the hard form: the service is expected to be there, because the kernel
//!   holds the fiber until it resolves; a missing one is reported by name;
//! - the soft form: `None` when the service is absent.

use crate::context::{Ctx, ServiceId, resolved};
use crate::kernel::Kernel;
use crate::service::ServiceKey;
use vstd::prelude::*;

verus! {

/// What a missing service is reported as.
pub open spec fn missing_text(key: ServiceKey) -> Seq<char> {
    "the required service "@ + key.name@ + " is missing"@
}

/// Extracts a service that has to be there, or says which one is missing.
pub fn hard_service(ctx: &Ctx, kernel: &Kernel, key: &ServiceKey) -> (r: Result<ServiceId, String>)
    requires
        kernel.wf(),
    ensures
        match r {
            Ok(service) => resolved(kernel@.realms, ctx.realm, key.id) == Some(service),
            Err(reason) => resolved(kernel@.realms, ctx.realm, key.id) is None && reason@
                == missing_text(*key),
        },
{
    match ctx.get(kernel, key) {
        Some(service) => Ok(service),
        None => {
            let mut reason = "the required service ".to_owned();
            reason.append(key.name());
            reason.append(" is missing");
            Err(reason)
        },
    }
}

/// Extracts a service that may be absent.
pub fn soft_service(ctx: &Ctx, kernel: &Kernel, key: &ServiceKey) -> (r: Option<ServiceId>)
    requires
        kernel.wf(),
    ensures
        r == resolved(kernel@.realms, ctx.realm, key.id),
{
    ctx.get(kernel, key)
}

} // verus!
