//! Identifier taxonomy of the persistence collaborator.
//!
//! The core never reads or writes files itself; it hands fields and
//! scalars to a self-describing binary store keyed by string names. What
//! the core does model is the store's identifier and reference kinds, as
//! plain data with their wire codes.
use vstd::prelude::*;

verus! {

/// Kind of a persisted-store identifier.
#[allow(non_camel_case_types)]
#[derive(Clone, Copy, Debug, PartialEq, Eq, Structural)]
pub enum H5I_type_t {
    /// Uninitialized identifier.
    H5I_UNINIT,
    /// Invalid identifier.
    H5I_BADID,
    /// A file.
    H5I_FILE,
    /// A group.
    H5I_GROUP,
    /// A datatype.
    H5I_DATATYPE,
    /// A dataspace.
    H5I_DATASPACE,
    /// A dataset.
    H5I_DATASET,
    /// An attribute.
    H5I_ATTR,
    /// A reference.
    H5I_REFERENCE,
    /// A virtual file layer entry.
    H5I_VFL,
    /// A generic property list class.
    H5I_GENPROP_CLS,
    /// A generic property list.
    H5I_GENPROP_LST,
    /// An error class.
    H5I_ERROR_CLASS,
    /// An error message.
    H5I_ERROR_MSG,
    /// An error stack.
    H5I_ERROR_STACK,
    /// Number of identifier kinds.
    H5I_NTYPES,
}

/// The wire code of an identifier kind.
pub open spec fn h5i_code(t: H5I_type_t) -> int {
    match t {
        H5I_type_t::H5I_UNINIT => -2,
        H5I_type_t::H5I_BADID => -1,
        H5I_type_t::H5I_FILE => 1,
        H5I_type_t::H5I_GROUP => 2,
        H5I_type_t::H5I_DATATYPE => 3,
        H5I_type_t::H5I_DATASPACE => 4,
        H5I_type_t::H5I_DATASET => 5,
        H5I_type_t::H5I_ATTR => 6,
        H5I_type_t::H5I_REFERENCE => 7,
        H5I_type_t::H5I_VFL => 8,
        H5I_type_t::H5I_GENPROP_CLS => 9,
        H5I_type_t::H5I_GENPROP_LST => 10,
        H5I_type_t::H5I_ERROR_CLASS => 11,
        H5I_type_t::H5I_ERROR_MSG => 12,
        H5I_type_t::H5I_ERROR_STACK => 13,
        H5I_type_t::H5I_NTYPES => 14,
    }
}

impl H5I_type_t {
    /// The wire code of this identifier kind.
    pub fn code(&self) -> (r: i32)
        ensures
            r as int == h5i_code(*self),
    {
        match self {
            H5I_type_t::H5I_UNINIT => -2,
            H5I_type_t::H5I_BADID => -1,
            H5I_type_t::H5I_FILE => 1,
            H5I_type_t::H5I_GROUP => 2,
            H5I_type_t::H5I_DATATYPE => 3,
            H5I_type_t::H5I_DATASPACE => 4,
            H5I_type_t::H5I_DATASET => 5,
            H5I_type_t::H5I_ATTR => 6,
            H5I_type_t::H5I_REFERENCE => 7,
            H5I_type_t::H5I_VFL => 8,
            H5I_type_t::H5I_GENPROP_CLS => 9,
            H5I_type_t::H5I_GENPROP_LST => 10,
            H5I_type_t::H5I_ERROR_CLASS => 11,
            H5I_type_t::H5I_ERROR_MSG => 12,
            H5I_type_t::H5I_ERROR_STACK => 13,
            H5I_type_t::H5I_NTYPES => 14,
        }
    }
}

/// Kind of a persisted-store reference.
#[allow(non_camel_case_types)]
#[derive(Clone, Copy, Debug, PartialEq, Eq, Structural)]
pub enum H5R_type_t {
    /// Invalid reference kind.
    H5R_BADTYPE,
    /// Object reference.
    H5R_OBJECT,
    /// Dataset-region reference.
    H5R_DATASET_REGION,
    /// Number of reference kinds.
    H5R_MAXTYPE,
}

/// The wire code of a reference kind.
pub open spec fn h5r_code(t: H5R_type_t) -> int {
    match t {
        H5R_type_t::H5R_BADTYPE => -1,
        H5R_type_t::H5R_OBJECT => 0,
        H5R_type_t::H5R_DATASET_REGION => 1,
        H5R_type_t::H5R_MAXTYPE => 2,
    }
}

impl H5R_type_t {
    /// The wire code of this reference kind.
    pub fn code(&self) -> (r: i32)
        ensures
            r as int == h5r_code(*self),
    {
        match self {
            H5R_type_t::H5R_BADTYPE => -1,
            H5R_type_t::H5R_OBJECT => 0,
            H5R_type_t::H5R_DATASET_REGION => 1,
            H5R_type_t::H5R_MAXTYPE => 2,
        }
    }
}

/// An opaque reference value of the persisted store: a fixed-size byte
/// buffer, zeroed until the store fills it.
#[allow(non_camel_case_types)]
#[derive(Clone, Copy, Debug)]
pub struct H5R_ref_t {
    u: [u8; 64],
}

impl H5R_ref_t {
    /// The buffer contents.
    pub closed spec fn view(&self) -> Seq<u8> {
        self.u@
    }

    /// A zeroed reference.
    pub fn new_zeroed() -> (r: H5R_ref_t)
        ensures
            r.view().len() == 64,
            forall|i: int| 0 <= i < 64 ==> r.view()[i] == 0u8,
    {
        H5R_ref_t { u: [0u8; 64] }
    }
}

impl Default for H5R_ref_t {
    /// A zeroed reference.
    fn default() -> (r: H5R_ref_t)
        ensures
            r.view().len() == 64,
            forall|i: int| 0 <= i < 64 ==> r.view()[i] == 0u8,
    {
        H5R_ref_t::new_zeroed()
    }
}

} // verus!
