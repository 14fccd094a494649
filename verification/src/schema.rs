//! The shape of an XY Build configuration as editor support sees it: for each
//! block, its known fields with their documentation and the kind of value
//! each takes, and what the other keys of the block may hold.

use vstd::prelude::*;
use vstd::string::*;
use crate::options::{Config, config_field_names, project_type_names, package_manager_names, names_model};

verus! {

/// The kind of value a known field takes.
pub enum FieldKind {
    /// A simple value.
    Str,
    /// A simple value naming one of the listed variants.
    Enum(Vec<String>),
    /// A block of entries that follows the given schema.
    Object(ObjSchema),
}

/// A known field of a block.
pub struct Field {
    pub name: String,
    pub doc: String,
    pub kind: FieldKind,
}

/// What the keys of a block that are not known fields hold.
pub enum RestKind {
    /// Simple values.
    Str,
    /// Blocks of entries that follow the given schema.
    Object(ObjSchema),
}

/// The schema of a block of entries.
pub struct ObjSchema {
    pub fields: Vec<Field>,
    /// `None` where a block admits no keys but its known fields.
    pub rest: Option<Box<RestKind>>,
}

/// The names of a list of fields, in order.
pub open spec fn field_names(fields: Seq<Field>) -> Seq<Seq<char>> {
    fields.map_values(|f: Field| f.name@)
}

/// The field is a simple value naming one of `variants`, with `doc` as its
/// documentation.
pub open spec fn is_enum_field(f: Field, name: Seq<char>, doc: Seq<char>, variants: Seq<Seq<char>>) -> bool {
    &&& f.name@ == name
    &&& f.doc@ == doc
    &&& f.kind matches FieldKind::Enum(vs) && names_model(vs@) == variants
}

/// The schema of the `node_modules` block: a `package_manager` naming a
/// package manager, and simple values for the dependencies under other keys.
pub open spec fn is_node_modules_schema(s: ObjSchema) -> bool {
    &&& s.fields@.len() == 1
    &&& is_enum_field(s.fields@[0], "package_manager"@, ""@, package_manager_names())
    &&& s.rest matches Some(r) && *r is Str
}

/// The schema of the `run` block: no known fields, simple values for the
/// script commands under other keys.
pub open spec fn is_run_schema(s: ObjSchema) -> bool {
    &&& s.fields@.len() == 0
    &&& s.rest matches Some(r) && *r is Str
}

/// The schema of the root block of an XY Build configuration.
pub open spec fn is_config_schema(s: ObjSchema) -> bool {
    &&& s.fields@.len() == 3
    &&& field_names(s.fields@) == config_field_names()
    &&& is_enum_field(s.fields@[0], "project_type"@, "The project type being built."@, project_type_names())
    &&& s.fields@[1].doc@ == "Configuration for Node.js module resolution."@
    &&& s.fields@[1].kind matches FieldKind::Object(nm) && is_node_modules_schema(nm)
    &&& s.fields@[2].doc@ == "Script commands to run during the build process."@
    &&& s.fields@[2].kind matches FieldKind::Object(run) && is_run_schema(run)
    &&& s.rest is None
}

impl Config {
    /// The schema of an XY Build configuration, with the fields of `Config` and
    /// the variants its enums accept.
    pub fn schema() -> (s: ObjSchema)
        ensures
            is_config_schema(s),
    {
        let pm_variants = vec![String::from_str("Pnpm"), String::from_str("Npm")];
        assert(names_model(pm_variants@) =~= package_manager_names());
        let node_modules = ObjSchema {
            fields: vec![
                Field {
                    name: String::from_str("package_manager"),
                    doc: String::new(),
                    kind: FieldKind::Enum(pm_variants),
                },
            ],
            rest: Some(Box::new(RestKind::Str)),
        };
        proof {
            reveal_strlit("");
        }
        assert(node_modules.fields@[0].doc@ == ""@);
        assert(is_enum_field(node_modules.fields@[0], "package_manager"@, ""@, package_manager_names()));
        let run = ObjSchema { fields: Vec::new(), rest: Some(Box::new(RestKind::Str)) };
        let pt_variants = vec![String::from_str("Node"), String::from_str("Rust")];
        assert(names_model(pt_variants@) =~= project_type_names());
        let fields = vec![
            Field {
                name: String::from_str("project_type"),
                doc: String::from_str("The project type being built."),
                kind: FieldKind::Enum(pt_variants),
            },
            Field {
                name: String::from_str("node_modules"),
                doc: String::from_str("Configuration for Node.js module resolution."),
                kind: FieldKind::Object(node_modules),
            },
            Field {
                name: String::from_str("run"),
                doc: String::from_str("Script commands to run during the build process."),
                kind: FieldKind::Object(run),
            },
        ];
        assert(field_names(fields@) =~= config_field_names());
        ObjSchema { fields, rest: None }
    }
}

} // verus!
