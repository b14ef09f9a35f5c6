//! Typed, lossless reading and editing of KiCad files: footprints, schematics,
//! symbol libraries, boards and project files.
//!
//! Every S-expression document keeps its text exactly as read; edits go
//! through setters that change the syntax tree and read the typed view anew.
pub mod text;
pub mod sexpr;
pub mod sexpr_utils;
pub mod sexpr_edit;
pub mod version;
pub mod diagnostic;
pub mod write_mode;
pub mod error;
pub mod unknown;
pub mod document;
pub mod sections;
pub mod footprint;
pub mod schematic;
pub mod symbol;
pub mod pcb;
pub mod json;
pub mod json_text;
pub mod project;

pub use diagnostic::{Diagnostic, Severity, Span};
pub use error::Error;
pub use footprint::{
    FootprintAst, FootprintDocument, FootprintFile, FpGraphic, FpGroup, FpModel, FpPad, FpPadDrill, FpPadNet,
    FpProperty, FpZone,
};
pub use json::{JsonNumber, JsonValue};
pub use pcb::{PcbAst, PcbDocument, PcbFile};
pub use project::{ProjectAst, ProjectDocument, ProjectFile, UnknownField};
pub use schematic::{
    SchematicArc, SchematicAst, SchematicBus, SchematicBusAlias, SchematicBusEntry, SchematicCircle,
    SchematicDocument, SchematicFile, SchematicImage, SchematicJunction, SchematicLabel, SchematicNetclassFlag,
    SchematicNoConnect, SchematicPaper, SchematicPolyline, SchematicRectangle, SchematicRuleArea, SchematicSheet,
    SchematicSheetInstance, SchematicSymbol, SchematicSymbolInfo, SchematicSymbolInstance, SchematicText,
    SchematicTitleBlock, SchematicWire,
};
pub use sexpr::{Atom, CstDocument, Node, ParseError};
pub use sexpr_utils::{Real, Xy, Xyz};
pub use symbol::{SymGraphic, SymPin, SymProperty, SymUnit, Symbol, SymbolLibAst, SymbolLibDocument, SymbolLibFile};
pub use unknown::UnknownNode;
pub use version::{KiCadSeries, VersionPolicy};
pub use write_mode::WriteMode;
