//! Polytopes as ranked incidence posets, with verified construction,
//! products, duals and validity checks, plus a geometric layer that
//! realizes them with coordinates supplied by a caller.

mod concrete;
mod counting;
mod dual;
mod element;
mod family;
mod geom;
mod laws;
mod poset;
mod product;
mod ranked;

pub use concrete::Polytope;
pub use concrete::compound;
pub use concrete::compound_from_trans;
pub use concrete::dual_vertices;
pub use element::Element;
pub use element::ElementList;
pub use family::ProductKind;
pub use family::can_product;
pub use geom::Chart;
pub use geom::Coord;
pub use geom::LinearMap;
pub use poset::Abstract;
pub use ranked::RankVec;
