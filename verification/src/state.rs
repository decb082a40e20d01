use crate::instance::{InstanceManager, ManagedInstance};
use vstd::prelude::*;

verus! {

/// What the agent holds.
pub struct AppState {
    pub instances: InstanceManager,
}

impl AppState {
    /// An agent that holds no instance.
    pub fn new() -> (st: Self)
        ensures
            st.instances.wf(),
            st.instances@ == Seq::<ManagedInstance>::empty(),
    {
        AppState { instances: InstanceManager::new() }
    }
}

} // verus!
