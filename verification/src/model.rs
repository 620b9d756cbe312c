//! Diagram model: the parts of parsed diagrams that the layout rules read.
use vstd::prelude::*;

verus! {

/// Layout direction requested by a diagram.
#[derive(Debug, Clone, Copy, PartialEq, Eq, Structural)]
pub enum Direction {
    TopToBottom,
    LeftToRight,
    BottomToTop,
    RightToLeft,
}

/// Part of a class box that `hide`/`show` rules address.
#[derive(Debug, Clone, Copy, PartialEq, Eq, Structural)]
pub enum ClassPortion {
    Field,
    Method,
    Stereotype,
}

/// What a `hide`/`show` rule applies to.
#[derive(Debug, Clone)]
pub enum ClassRuleTarget {
    Any,
    Entity(String),
    Stereotype(String),
}

/// One `hide`/`show` rule of a class diagram.
#[derive(Debug, Clone)]
pub struct ClassHideShowRule {
    pub portion: ClassPortion,
    pub target: ClassRuleTarget,
    pub show: bool,
}

/// A stereotype label such as `<<interface>>`'s `interface`.
#[derive(Debug, Clone)]
pub struct Stereotype(pub String);

/// A field or method of a class.
#[derive(Debug, Clone)]
pub struct Member {
    pub name: String,
    pub return_type: Option<String>,
}

/// A class-diagram entity, identified by its name.
#[derive(Debug, Clone)]
pub struct Entity {
    pub name: String,
}

/// A link between two entities of a class diagram: its ends, its label,
/// and the length of its arrow in dashes or dots.
#[derive(Debug, Clone)]
pub struct Link {
    pub from: String,
    pub to: String,
    pub label: Option<String>,
    pub arrow_len: usize,
}

/// A package or namespace grouping entities.
#[derive(Debug, Clone)]
pub struct Group {
    pub entities: Vec<String>,
}

/// The parts of a class diagram that its graph is built from; the
/// direction counts only when the diagram writes it out.
#[derive(Debug, Clone)]
pub struct ClassDiagram {
    pub entities: Vec<Entity>,
    pub links: Vec<Link>,
    pub groups: Vec<Group>,
    pub direction: Direction,
    pub direction_explicit: bool,
}

/// A server reference inside an nwdiag network.
#[derive(Debug, Clone)]
pub struct ServerRef {
    pub name: String,
    pub address: Option<String>,
    pub description: Option<String>,
}

/// An nwdiag network and the servers attached to it.
#[derive(Debug, Clone)]
pub struct NwdiagNetwork {
    pub name: String,
    pub address: Option<String>,
    pub color: Option<String>,
    pub servers: Vec<ServerRef>,
}

/// An nwdiag diagram.
#[derive(Debug, Clone)]
pub struct NwdiagDiagram {
    pub title: Option<String>,
    pub networks: Vec<NwdiagNetwork>,
}

/// A link of an entity-relationship diagram, with the cardinality written
/// on it.
#[derive(Debug, Clone)]
pub struct ErdLink {
    pub from: String,
    pub to: String,
    pub cardinality: String,
}

/// An ISA (specialisation) of an entity-relationship diagram.
#[derive(Debug, Clone)]
pub struct ErdIsa {
    pub parent: String,
    pub children: Vec<String>,
}

/// A JSON value as the diagram shows it in a leaf cell. A number carries
/// the text it is displayed with.
#[derive(Debug, Clone)]
pub enum JsonValue {
    Null,
    Bool(bool),
    Number(String),
    Str(String),
}

/// The view of an optional string.
pub open spec fn opt_view(o: Option<String>) -> Option<Seq<char>> {
    match o {
        Some(s) => Some(s@),
        None => None,
    }
}

} // verus!
