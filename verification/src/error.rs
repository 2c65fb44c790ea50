use vstd::prelude::*;

verus! {

/// Errors reported by world operations.
#[derive(Clone, Copy, Debug, PartialEq, Eq, Structural)]
pub enum EcsError {
    TypeMismatch,
    DeadEntity,
    MissingLocation,
    UnregisteredComponent,
    MissingComponent,
}

impl EcsError {
    /// The human-readable description of the error.
    pub fn message(&self) -> (s: &'static str)
        ensures
            *self == EcsError::TypeMismatch ==> s@ == "Component type mismatch during downcast"@,
            *self == EcsError::DeadEntity ==> s@ == "Entity is not alive"@,
            *self == EcsError::MissingLocation ==> s@ == "Entity has no location in the world"@,
            *self == EcsError::UnregisteredComponent ==> s@ == "Component type is not registered"@,
            *self == EcsError::MissingComponent ==> s@ == "Entity does not have the requested component"@,
    {
        match self {
            EcsError::TypeMismatch => "Component type mismatch during downcast",
            EcsError::DeadEntity => "Entity is not alive",
            EcsError::MissingLocation => "Entity has no location in the world",
            EcsError::UnregisteredComponent => "Component type is not registered",
            EcsError::MissingComponent => "Entity does not have the requested component",
        }
    }
}

} // verus!
