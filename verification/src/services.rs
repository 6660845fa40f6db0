//! The shape of a service catalogue: who owns a service and how to reach them.

use vstd::prelude::*;
use std::collections::HashMap;

verus! {

/// A service catalogue, keyed by service name.
#[derive(Debug, Clone)]
pub struct ServicesFile {
    pub services: HashMap<String, ServiceDef>,
}

/// What the catalogue records of one service.
#[derive(Debug, Clone)]
pub struct ServiceDef {
    pub owners: Option<Vec<Owner>>,
    pub contact: Option<Contact>,
    pub docs: Option<String>,
    pub runbook: Option<String>,
}

/// An owner of a service, told apart once, when the catalogue is read.
#[derive(Debug, Clone)]
pub enum Owner {
    Team { team: String },
    User { user: String },
    Email { email: String },
    /// A plain string that names the owner.
    Raw(String),
}

/// How to reach the owners of a service.
#[derive(Debug, Clone)]
pub struct Contact {
    pub slack: Option<String>,
    pub email: Option<String>,
}

} // verus!
