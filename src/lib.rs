//! Documentation extraction for an object model in which one model may be
//! declared once and reopened by any number of other files. Each class block
//! of each file is reduced to a fragment; fragments are merged per model, and
//! a cross-reference tells, for each field and method name, which model
//! declares it and whether its original declaration does.

pub mod docstring;
pub mod fragment;
pub mod index;
pub mod keyed;
pub mod laws;
pub mod position;
pub mod state;
pub mod syntax;
