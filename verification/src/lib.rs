//! Wrap an extendable container to map or filter elements before they
//! reach it.
//!
//! [`ExtendMap`] and [`ExtendFilter`] each borrow a container exclusively,
//! hold a stateful per-element callable, and present the container's own
//! absorption capability under the input element type: every absorbed
//! element is transformed (or tested) by the callable before it is
//! forwarded, in order, to the wrapped container.

pub mod adapters;
pub mod extendable;
pub mod filtering;
pub mod mapping;

pub use extendable::Extendable;
pub use filtering::ExtendFilter;
pub use filtering::Filter;
pub use mapping::ExtendMap;
pub use mapping::Mapper;
