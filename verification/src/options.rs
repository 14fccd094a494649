//! Typed configuration options read from parsed values: the `Parseable`
//! trait, its building blocks (quoted strings and the remainder of unknown
//! keys), and the XY Build configuration schema itself.

use vstd::prelude::*;
use vstd::string::*;
use crate::parser::{
    Entry, Key, KeyModel, Value, ValueModel, EntryModel, entries_model, lemma_entries_model_index,
};
use crate::text::same_text;

verus! {

/// A type that can be read from a parsed configuration value.
pub trait Parseable {
    /// Reads a value of this type, or says why the value does not fit.
    fn parse(value: &Value) -> Result<Self, String> where Self: Sized;

    /// The names this type accepts (variants of an enum, fields of a
    /// struct), where it has a fixed set of them.
    fn options() -> Option<Vec<String>>;
}

/// The model of the outcome of reading an option.
pub open spec fn read_model<T: View>(r: Result<T, String>) -> Result<T::V, Seq<char>> {
    match r {
        Ok(v) => Ok(v@),
        Err(e) => Err(e@),
    }
}

/// The texts of a list of names.
pub open spec fn names_model(names: Seq<String>) -> Seq<Seq<char>> {
    names.map_values(|s: String| s@)
}

/// A quoted string value.
#[derive(Debug)]
pub struct StringValue(pub String);

impl View for StringValue {
    type V = Seq<char>;

    open spec fn view(&self) -> Seq<char> {
        self.0@
    }
}

impl Parseable for StringValue {
    fn parse(value: &Value) -> (r: Result<Self, String>)
        ensures
            read_model(r) == match value@ {
                ValueModel::UnknownIdent(s) => Ok(s),
                _ => Err("this needs to be a quoted value"@),
            },
    {
        match value {
            Value::UnknownIdent(s) => Ok(StringValue(s.clone())),
            _ => Err(String::from_str("this needs to be a quoted value")),
        }
    }

    fn options() -> (r: Option<Vec<String>>)
        ensures
            r is None,
    {
        None
    }
}

/// A key together with its value, as the remainder holds them.
pub open spec fn pair_model(p: (String, Value)) -> (Seq<char>, ValueModel) {
    (p.0@, p.1@)
}

/// Inserts `k` with `v` into an association list: replaces the value of the
/// first pair with key `k`, or appends the pair if there is none.
pub open spec fn assoc_insert(m: Seq<(Seq<char>, ValueModel)>, k: Seq<char>, v: ValueModel) -> Seq<
    (Seq<char>, ValueModel),
>
    decreases m.len(),
{
    if m.len() == 0 {
        seq![(k, v)]
    } else if m[0].0 == k {
        m.update(0, (k, v))
    } else {
        seq![m[0]] + assoc_insert(m.drop_first(), k, v)
    }
}

/// The value of the first pair with key `k` in an association list.
pub open spec fn assoc_get(m: Seq<(Seq<char>, ValueModel)>, k: Seq<char>) -> Option<ValueModel>
    decreases m.len(),
{
    if m.len() == 0 {
        None
    } else if m[0].0 == k {
        Some(m[0].1)
    } else {
        assoc_get(m.drop_first(), k)
    }
}

/// No key occurs twice in an association list.
pub open spec fn keys_distinct(m: Seq<(Seq<char>, ValueModel)>) -> bool {
    forall|i: int, j: int| 0 <= i < j < m.len() ==> m[i].0 != m[j].0
}

/// The keys that were not recognized, each with its value.
#[derive(Debug)]
pub struct Remainder(pub Vec<(String, Value)>);

impl View for Remainder {
    type V = Seq<(Seq<char>, ValueModel)>;

    open spec fn view(&self) -> Seq<(Seq<char>, ValueModel)> {
        self.0@.map_values(|p: (String, Value)| pair_model(p))
    }
}

/// Where a pair with key `k` first occurs, `assoc_insert` replaces it; where
/// none occurs, it appends.
proof fn lemma_assoc_insert_at(m: Seq<(Seq<char>, ValueModel)>, k: Seq<char>, v: ValueModel, i: int)
    requires
        0 <= i <= m.len(),
        forall|j: int| 0 <= j < i ==> m[j].0 != k,
        i < m.len() ==> m[i].0 == k,
    ensures
        assoc_insert(m, k, v) == if i < m.len() {
            m.update(i, (k, v))
        } else {
            m.push((k, v))
        },
    decreases m.len(),
{
    if m.len() == 0 {
        assert(seq![(k, v)] =~= m.push((k, v)));
    } else if i == 0 {
    } else {
        lemma_assoc_insert_at(m.drop_first(), k, v, i - 1);
        if i < m.len() {
            assert(seq![m[0]] + m.drop_first().update(i - 1, (k, v)) =~= m.update(i, (k, v)));
        } else {
            assert(seq![m[0]] + m.drop_first().push((k, v)) =~= m.push((k, v)));
        }
    }
}

/// Where the first pair with key `k` is at `i`, `assoc_get` gives its value;
/// where none has key `k`, it gives nothing.
proof fn lemma_assoc_get_at(m: Seq<(Seq<char>, ValueModel)>, k: Seq<char>, i: int)
    requires
        0 <= i <= m.len(),
        forall|j: int| 0 <= j < i ==> m[j].0 != k,
        i < m.len() ==> m[i].0 == k,
    ensures
        assoc_get(m, k) == if i < m.len() {
            Some(m[i].1)
        } else {
            None::<ValueModel>
        },
    decreases m.len(),
{
    if m.len() > 0 && i > 0 {
        lemma_assoc_get_at(m.drop_first(), k, i - 1);
    }
}

impl Remainder {
    /// A remainder with no keys.
    pub fn new() -> (r: Remainder)
        ensures
            r@ == Seq::<(Seq<char>, ValueModel)>::empty(),
            keys_distinct(r@),
    {
        let r = Remainder(Vec::new());
        assert(r@ =~= Seq::<(Seq<char>, ValueModel)>::empty());
        r
    }

    /// Records `value` for `key`, replacing the value that `key` had.
    pub fn insert(&mut self, key: String, value: Value)
        ensures
            final(self)@ == assoc_insert(old(self)@, key@, value@),
            keys_distinct(old(self)@) ==> keys_distinct(final(self)@),
    {
        let n = self.0.len();
        let mut i: usize = 0;
        while i < n
            invariant
                0 <= i <= n,
                n == self.0@.len(),
                self@ == old(self)@,
                forall|j: int| 0 <= j < i ==> #[trigger] self@[j].0 != key@,
            decreases n - i,
        {
            if self.0[i].0 == key {
                proof {
                    lemma_assoc_insert_at(self@, key@, value@, i as int);
                }
                let ghost kv = key@;
                let ghost vv = value@;
                self.0[i] = (key, value);
                assert(self@ =~= old(self)@.update(i as int, (kv, vv)));
                proof {
                    lemma_assoc_insert_get(old(self)@, kv, vv, kv);
                    assert(self@ == assoc_insert(old(self)@, kv, vv));
                    if keys_distinct(old(self)@) {
                        assert(keys_distinct(assoc_insert(old(self)@, kv, vv)));
                        assert(keys_distinct(self@));
                    }
                }
                return;
            }
            i = i + 1;
        }
        proof {
            lemma_assoc_insert_at(self@, key@, value@, n as int);
        }
        let ghost kv = key@;
        let ghost vv = value@;
        self.0.push((key, value));
        assert(self@ =~= old(self)@.push((kv, vv)));
        proof {
            lemma_assoc_insert_get(old(self)@, kv, vv, kv);
            if keys_distinct(old(self)@) {
                assert(keys_distinct(assoc_insert(old(self)@, kv, vv)));
                assert(keys_distinct(self@));
            }
        }
    }

    /// The value recorded for `key`, if any.
    pub fn get(&self, key: &str) -> (r: Option<&Value>)
        ensures
            match r {
                Some(v) => assoc_get(self@, key@) == Some(v@),
                None => assoc_get(self@, key@) is None,
            },
    {
        let n = self.0.len();
        let mut i: usize = 0;
        while i < n
            invariant
                0 <= i <= n,
                n == self.0@.len(),
                forall|j: int| 0 <= j < i ==> #[trigger] self@[j].0 != key@,
            decreases n - i,
        {
            if same_text(self.0[i].0.as_str(), key) {
                proof {
                    lemma_assoc_get_at(self@, key@, i as int);
                }
                return Some(&self.0[i].1);
            }
            i = i + 1;
        }
        proof {
            lemma_assoc_get_at(self@, key@, n as int);
        }
        None
    }
}

impl Parseable for Remainder {
    fn parse(_value: &Value) -> (r: Result<Self, String>)
        ensures
            r matches Err(e) && e@ == "remainder should not be parsed"@,
    {
        return Err(String::from_str("remainder should not be parsed"));
    }

    fn options() -> (r: Option<Vec<String>>)
        ensures
            r is None,
    {
        None
    }
}


/// The kind of project being built.
#[derive(Debug, PartialEq, Eq, Structural)]
pub enum ProjectType {
    Node,
    Rust,
}

impl View for ProjectType {
    type V = ProjectType;

    open spec fn view(&self) -> ProjectType {
        *self
    }
}

/// The names of the project types, as written in a configuration.
pub open spec fn project_type_names() -> Seq<Seq<char>> {
    seq!["Node"@, "Rust"@]
}

/// The name a project type is written with.
pub open spec fn project_type_name(p: ProjectType) -> Seq<char> {
    match p {
        ProjectType::Node => "Node"@,
        ProjectType::Rust => "Rust"@,
    }
}

/// Reads a project type: an unquoted identifier naming one of its variants.
pub open spec fn project_type_of(v: ValueModel) -> Result<ProjectType, Seq<char>> {
    match v {
        ValueModel::KnownIdent(s) => if s == "Node"@ {
            Ok(ProjectType::Node)
        } else if s == "Rust"@ {
            Ok(ProjectType::Rust)
        } else {
            Err("unknown variant: "@ + s)
        },
        _ => Err("this needs to be an unquoted, known value"@),
    }
}

impl Parseable for ProjectType {
    fn parse(value: &Value) -> (r: Result<Self, String>)
        ensures
            read_model(r) == project_type_of(value@),
    {
        match value {
            Value::KnownIdent(s) => {
                if same_text(s.as_str(), "Node") {
                    Ok(ProjectType::Node)
                } else if same_text(s.as_str(), "Rust") {
                    Ok(ProjectType::Rust)
                } else {
                    Err(String::from_str("unknown variant: ").concat(s.as_str()))
                }
            },
            _ => Err(String::from_str("this needs to be an unquoted, known value")),
        }
    }

    fn options() -> (r: Option<Vec<String>>)
        ensures
            r matches Some(v) && names_model(v@) == project_type_names(),
    {
        let v = vec![String::from_str("Node"), String::from_str("Rust")];
        assert(names_model(v@) =~= project_type_names());
        Some(v)
    }
}

/// The package managers a Node project can use.
#[derive(Debug, PartialEq, Eq, Structural)]
pub enum NodePackageManagers {
    Pnpm,
    Npm,
}

impl View for NodePackageManagers {
    type V = NodePackageManagers;

    open spec fn view(&self) -> NodePackageManagers {
        *self
    }
}

/// The names of the package managers, as written in a configuration.
pub open spec fn package_manager_names() -> Seq<Seq<char>> {
    seq!["Pnpm"@, "Npm"@]
}

/// The name a package manager is written with.
pub open spec fn package_manager_name(p: NodePackageManagers) -> Seq<char> {
    match p {
        NodePackageManagers::Pnpm => "Pnpm"@,
        NodePackageManagers::Npm => "Npm"@,
    }
}

/// Reads a package manager: an unquoted identifier naming one of them.
pub open spec fn package_manager_of(v: ValueModel) -> Result<NodePackageManagers, Seq<char>> {
    match v {
        ValueModel::KnownIdent(s) => if s == "Pnpm"@ {
            Ok(NodePackageManagers::Pnpm)
        } else if s == "Npm"@ {
            Ok(NodePackageManagers::Npm)
        } else {
            Err("unknown variant: "@ + s)
        },
        _ => Err("this needs to be an unquoted, known value"@),
    }
}

impl Parseable for NodePackageManagers {
    fn parse(value: &Value) -> (r: Result<Self, String>)
        ensures
            read_model(r) == package_manager_of(value@),
    {
        match value {
            Value::KnownIdent(s) => {
                if same_text(s.as_str(), "Pnpm") {
                    Ok(NodePackageManagers::Pnpm)
                } else if same_text(s.as_str(), "Npm") {
                    Ok(NodePackageManagers::Npm)
                } else {
                    Err(String::from_str("unknown variant: ").concat(s.as_str()))
                }
            },
            _ => Err(String::from_str("this needs to be an unquoted, known value")),
        }
    }

    fn options() -> (r: Option<Vec<String>>)
        ensures
            r matches Some(v) && names_model(v@) == package_manager_names(),
    {
        let v = vec![String::from_str("Pnpm"), String::from_str("Npm")];
        assert(names_model(v@) =~= package_manager_names());
        Some(v)
    }
}

/// A name is listed among the project types exactly when it reads as one,
/// and each project type reads back from its own name.
pub proof fn lemma_project_type_options_parse(s: Seq<char>, p: ProjectType)
    ensures
        project_type_names().contains(s) <==> project_type_of(ValueModel::KnownIdent(s)) is Ok,
        project_type_names().contains(project_type_name(p)),
        project_type_of(ValueModel::KnownIdent(project_type_name(p))) == Ok::<ProjectType, Seq<char>>(p),
{
    reveal_strlit("Node");
    reveal_strlit("Rust");
    assert("Rust"@[0] != "Node"@[0]);
    if project_type_of(ValueModel::KnownIdent(s)) is Ok {
        assert(project_type_names()[0] == "Node"@);
        assert(project_type_names()[1] == "Rust"@);
    }
    if project_type_names().contains(s) {
        let i = choose|i: int| 0 <= i < project_type_names().len() && project_type_names()[i] == s;
        assert(i == 0 || i == 1);
    }
    assert(project_type_names()[0] == "Node"@);
    assert(project_type_names()[1] == "Rust"@);
}

/// A name is listed among the package managers exactly when it reads as one,
/// and each package manager reads back from its own name.
pub proof fn lemma_package_manager_options_parse(s: Seq<char>, p: NodePackageManagers)
    ensures
        package_manager_names().contains(s) <==> package_manager_of(ValueModel::KnownIdent(s)) is Ok,
        package_manager_names().contains(package_manager_name(p)),
        package_manager_of(ValueModel::KnownIdent(package_manager_name(p))) == Ok::<NodePackageManagers, Seq<char>>(p),
{
    reveal_strlit("Pnpm");
    reveal_strlit("Npm");
    assert("Npm"@.len() != "Pnpm"@.len());
    if package_manager_of(ValueModel::KnownIdent(s)) is Ok {
        assert(package_manager_names()[0] == "Pnpm"@);
        assert(package_manager_names()[1] == "Npm"@);
    }
    if package_manager_names().contains(s) {
        let i = choose|i: int| 0 <= i < package_manager_names().len() && package_manager_names()[i] == s;
        assert(i == 0 || i == 1);
    }
    assert(package_manager_names()[0] == "Pnpm"@);
    assert(package_manager_names()[1] == "Npm"@);
}


/// The model of an optional remainder.
pub open spec fn opt_remainder_model(r: Option<Remainder>) -> Option<Seq<(Seq<char>, ValueModel)>> {
    match r {
        None => None,
        Some(r) => Some(r@),
    }
}

/// Script commands to run during the build: every quoted key with its value.
#[derive(Debug)]
pub struct Run {
    pub rem: Option<Remainder>,
}

/// The mathematical value of a [`Run`].
pub struct RunModel {
    pub rem: Option<Seq<(Seq<char>, ValueModel)>>,
}

impl View for Run {
    type V = RunModel;

    open spec fn view(&self) -> RunModel {
        RunModel { rem: opt_remainder_model(self.rem) }
    }
}

/// Reads the entries of a `run` block from left to right: a quoted key is
/// recorded with its value (a later one replacing an earlier one), an
/// unquoted key is an unknown field and ends the reading.
pub open spec fn run_scan(es: Seq<EntryModel>) -> Result<Seq<(Seq<char>, ValueModel)>, Seq<char>>
    decreases es.len(),
{
    if es.len() == 0 {
        Ok(seq![])
    } else {
        let e = es[es.len() - 1];
        match run_scan(es.drop_last()) {
            Err(m) => Err(m),
            Ok(map) => match e.key {
                KeyModel::KnownIdent(s) => Err("unknown field: "@ + s),
                KeyModel::UnknownIdent(s) => Ok(assoc_insert(map, s, e.value)),
            },
        }
    }
}

/// Reads a `run` block.
pub open spec fn run_of(v: ValueModel) -> Result<RunModel, Seq<char>> {
    match v {
        ValueModel::Block(es) => match run_scan(es) {
            Ok(map) => Ok(RunModel { rem: Some(map) }),
            Err(m) => Err(m),
        },
        _ => Err("this needs to be a block"@),
    }
}

proof fn lemma_run_scan_err_extends(es: Seq<EntryModel>, k: int)
    requires
        0 <= k <= es.len(),
        run_scan(es.take(k)) is Err,
    ensures
        run_scan(es) == run_scan(es.take(k)),
    decreases es.len(),
{
    if k == es.len() {
        assert(es.take(k) =~= es);
    } else {
        assert(es.drop_last().take(k) =~= es.take(k));
        lemma_run_scan_err_extends(es.drop_last(), k);
    }
}

impl Parseable for Run {
    fn parse(value: &Value) -> (r: Result<Self, String>)
        ensures
            read_model(r) == run_of(value@),
    {
        match value {
            Value::Block(entries) => {
                let ghost ms = entries_model(entries@);
                proof {
                    lemma_entries_model_index(entries@);
                }
                let mut map = Remainder::new();
                let n = entries.len();
                let mut i: usize = 0;
                while i < n
                    invariant
                        0 <= i <= n,
                        n == entries@.len(),
                        ms == entries_model(entries@),
                        value@ == ValueModel::Block(ms),
                        ms.len() == n,
                        forall|j: int| 0 <= j < n ==> #[trigger] ms[j] == entries@[j]@,
                        run_scan(ms.take(i as int)) == Ok::<Seq<(Seq<char>, ValueModel)>, Seq<char>>(map@),
                    decreases n - i,
                {
                    let entry = &entries[i];
                    proof {
                        assert(ms.take(i + 1).drop_last() =~= ms.take(i as int));
                        assert(ms.take(i + 1)[i as int] == entry@);
                    }
                    match &entry.key {
                        Key::KnownIdent(s) => {
                            let msg = String::from_str("unknown field: ").concat(s.as_str());
                            proof {
                                lemma_run_scan_err_extends(ms, i + 1);
                            }
                            return Err(msg);
                        },
                        Key::UnknownIdent(s) => {
                            map.insert(s.clone(), entry.value.clone());
                        },
                    }
                    i = i + 1;
                }
                assert(ms.take(n as int) =~= ms);
                Ok(Run { rem: Some(map) })
            },
            _ => Err(String::from_str("this needs to be a block")),
        }
    }

    fn options() -> (r: Option<Vec<String>>)
        ensures
            r matches Some(v) && v@.len() == 0,
    {
        Some(Vec::new())
    }
}

/// Configuration for Node.js module resolution.
#[derive(Debug)]
pub struct NodeModules {
    pub package_manager: Option<NodePackageManagers>,
    pub deps: Option<Remainder>,
}

/// The mathematical value of a [`NodeModules`].
pub struct NodeModulesModel {
    pub package_manager: Option<NodePackageManagers>,
    pub deps: Option<Seq<(Seq<char>, ValueModel)>>,
}

impl View for NodeModules {
    type V = NodeModulesModel;

    open spec fn view(&self) -> NodeModulesModel {
        NodeModulesModel {
            package_manager: self.package_manager,
            deps: opt_remainder_model(self.deps),
        }
    }
}

/// The field names of a `node_modules` block, as `options` lists them.
pub open spec fn node_modules_field_names() -> Seq<Seq<char>> {
    seq!["package_manager"@]
}

/// Reads the entries of a `node_modules` block from left to right: the
/// unquoted key `package_manager` sets the package manager (a second one is
/// a duplicate), a quoted key goes to the dependencies, and any other
/// unquoted key is an unknown field. The first error ends the reading.
pub open spec fn node_modules_scan(es: Seq<EntryModel>) -> Result<
    (Option<NodePackageManagers>, Seq<(Seq<char>, ValueModel)>),
    Seq<char>,
>
    decreases es.len(),
{
    if es.len() == 0 {
        Ok((None, seq![]))
    } else {
        let e = es[es.len() - 1];
        match node_modules_scan(es.drop_last()) {
            Err(m) => Err(m),
            Ok((pm, map)) => match e.key {
                KeyModel::KnownIdent(s) => if s == "package_manager"@ {
                    if pm is Some {
                        Err("duplicate field: package_manager"@)
                    } else {
                        match package_manager_of(e.value) {
                            Ok(p) => Ok((Some(p), map)),
                            Err(m) => Err(m),
                        }
                    }
                } else {
                    Err("unknown field: "@ + s)
                },
                KeyModel::UnknownIdent(s) => Ok((pm, assoc_insert(map, s, e.value))),
            },
        }
    }
}

/// Reads a `node_modules` block.
pub open spec fn node_modules_of(v: ValueModel) -> Result<NodeModulesModel, Seq<char>> {
    match v {
        ValueModel::Block(es) => match node_modules_scan(es) {
            Ok((pm, map)) => Ok(NodeModulesModel { package_manager: pm, deps: Some(map) }),
            Err(m) => Err(m),
        },
        _ => Err("this needs to be a block"@),
    }
}

proof fn lemma_node_modules_scan_err_extends(es: Seq<EntryModel>, k: int)
    requires
        0 <= k <= es.len(),
        node_modules_scan(es.take(k)) is Err,
    ensures
        node_modules_scan(es) == node_modules_scan(es.take(k)),
    decreases es.len(),
{
    if k == es.len() {
        assert(es.take(k) =~= es);
    } else {
        assert(es.drop_last().take(k) =~= es.take(k));
        lemma_node_modules_scan_err_extends(es.drop_last(), k);
    }
}

impl Parseable for NodeModules {
    fn parse(value: &Value) -> (r: Result<Self, String>)
        ensures
            read_model(r) == node_modules_of(value@),
    {
        match value {
            Value::Block(entries) => {
                let ghost ms = entries_model(entries@);
                proof {
                    lemma_entries_model_index(entries@);
                }
                let mut map = Remainder::new();
                let mut package_manager: Option<NodePackageManagers> = None;
                let n = entries.len();
                let mut i: usize = 0;
                while i < n
                    invariant
                        0 <= i <= n,
                        n == entries@.len(),
                        ms == entries_model(entries@),
                        value@ == ValueModel::Block(ms),
                        ms.len() == n,
                        forall|j: int| 0 <= j < n ==> #[trigger] ms[j] == entries@[j]@,
                        node_modules_scan(ms.take(i as int)) == Ok::<
                            (Option<NodePackageManagers>, Seq<(Seq<char>, ValueModel)>),
                            Seq<char>,
                        >((package_manager, map@)),
                    decreases n - i,
                {
                    let entry = &entries[i];
                    proof {
                        assert(ms.take(i + 1).drop_last() =~= ms.take(i as int));
                        assert(ms.take(i + 1)[i as int] == entry@);
                    }
                    match &entry.key {
                        Key::KnownIdent(s) => {
                            if same_text(s.as_str(), "package_manager") {
                                if package_manager.is_some() {
                                    proof {
                                        lemma_node_modules_scan_err_extends(ms, i + 1);
                                    }
                                    return Err(String::from_str("duplicate field: package_manager"));
                                }
                                match NodePackageManagers::parse(&entry.value) {
                                    Ok(p) => {
                                        package_manager = Some(p);
                                    },
                                    Err(e) => {
                                        proof {
                                            lemma_node_modules_scan_err_extends(ms, i + 1);
                                        }
                                        return Err(e);
                                    },
                                }
                            } else {
                                proof {
                                    lemma_node_modules_scan_err_extends(ms, i + 1);
                                }
                                return Err(String::from_str("unknown field: ").concat(s.as_str()));
                            }
                        },
                        Key::UnknownIdent(s) => {
                            map.insert(s.clone(), entry.value.clone());
                        },
                    }
                    i = i + 1;
                }
                assert(ms.take(n as int) =~= ms);
                Ok(NodeModules { package_manager, deps: Some(map) })
            },
            _ => Err(String::from_str("this needs to be a block")),
        }
    }

    fn options() -> (r: Option<Vec<String>>)
        ensures
            r matches Some(v) && names_model(v@) == node_modules_field_names(),
    {
        let v = vec![String::from_str("package_manager")];
        assert(names_model(v@) =~= node_modules_field_names());
        Some(v)
    }
}


/// Root configuration for XY Build projects.
#[derive(Debug)]
pub struct Config {
    /// The project type being built.
    pub project_type: Option<ProjectType>,
    /// Configuration for Node.js module resolution.
    pub node_modules: Option<NodeModules>,
    /// Script commands to run during the build process.
    pub run: Option<Run>,
}

/// The mathematical value of a [`Config`].
pub struct ConfigModel {
    pub project_type: Option<ProjectType>,
    pub node_modules: Option<NodeModulesModel>,
    pub run: Option<RunModel>,
}

/// The model of an optional `node_modules` block.
pub open spec fn opt_node_modules_model(n: Option<NodeModules>) -> Option<NodeModulesModel> {
    match n {
        None => None,
        Some(n) => Some(n@),
    }
}

/// The model of an optional `run` block.
pub open spec fn opt_run_model(r: Option<Run>) -> Option<RunModel> {
    match r {
        None => None,
        Some(r) => Some(r@),
    }
}

impl View for Config {
    type V = ConfigModel;

    open spec fn view(&self) -> ConfigModel {
        ConfigModel {
            project_type: self.project_type,
            node_modules: opt_node_modules_model(self.node_modules),
            run: opt_run_model(self.run),
        }
    }
}

/// The field names of the root configuration, as `options` lists them.
pub open spec fn config_field_names() -> Seq<Seq<char>> {
    seq!["project_type"@, "node_modules"@, "run"@]
}

/// The root configuration with no field set.
pub open spec fn empty_config() -> ConfigModel {
    ConfigModel { project_type: None, node_modules: None, run: None }
}

/// Reads the entries of the root block from left to right: each of the
/// unquoted keys `project_type`, `node_modules` and `run` sets its field once
/// (a second one is a duplicate); every other key is an unknown field. The
/// first error ends the reading.
pub open spec fn config_scan(es: Seq<EntryModel>) -> Result<ConfigModel, Seq<char>>
    decreases es.len(),
{
    if es.len() == 0 {
        Ok(empty_config())
    } else {
        let e = es[es.len() - 1];
        match config_scan(es.drop_last()) {
            Err(m) => Err(m),
            Ok(c) => match e.key {
                KeyModel::KnownIdent(s) => if s == "project_type"@ {
                    if c.project_type is Some {
                        Err("duplicate field: project_type"@)
                    } else {
                        match project_type_of(e.value) {
                            Ok(p) => Ok(ConfigModel { project_type: Some(p), ..c }),
                            Err(m) => Err(m),
                        }
                    }
                } else if s == "node_modules"@ {
                    if c.node_modules is Some {
                        Err("duplicate field: node_modules"@)
                    } else {
                        match node_modules_of(e.value) {
                            Ok(n) => Ok(ConfigModel { node_modules: Some(n), ..c }),
                            Err(m) => Err(m),
                        }
                    }
                } else if s == "run"@ {
                    if c.run is Some {
                        Err("duplicate field: run"@)
                    } else {
                        match run_of(e.value) {
                            Ok(r) => Ok(ConfigModel { run: Some(r), ..c }),
                            Err(m) => Err(m),
                        }
                    }
                } else {
                    Err("unknown field: "@ + s)
                },
                KeyModel::UnknownIdent(s) => Err("unknown field: "@ + s),
            },
        }
    }
}

/// Reads the root configuration block.
pub open spec fn config_of(v: ValueModel) -> Result<ConfigModel, Seq<char>> {
    match v {
        ValueModel::Block(es) => config_scan(es),
        _ => Err("this needs to be a block"@),
    }
}

proof fn lemma_config_scan_err_extends(es: Seq<EntryModel>, k: int)
    requires
        0 <= k <= es.len(),
        config_scan(es.take(k)) is Err,
    ensures
        config_scan(es) == config_scan(es.take(k)),
    decreases es.len(),
{
    if k == es.len() {
        assert(es.take(k) =~= es);
    } else {
        assert(es.drop_last().take(k) =~= es.take(k));
        lemma_config_scan_err_extends(es.drop_last(), k);
    }
}

impl Parseable for Config {
    fn parse(value: &Value) -> (r: Result<Self, String>)
        ensures
            read_model(r) == config_of(value@),
    {
        match value {
            Value::Block(entries) => {
                let ghost ms = entries_model(entries@);
                proof {
                    lemma_entries_model_index(entries@);
                }
                let mut project_type: Option<ProjectType> = None;
                let mut node_modules: Option<NodeModules> = None;
                let mut run: Option<Run> = None;
                let n = entries.len();
                let mut i: usize = 0;
                while i < n
                    invariant
                        0 <= i <= n,
                        n == entries@.len(),
                        ms == entries_model(entries@),
                        value@ == ValueModel::Block(ms),
                        ms.len() == n,
                        forall|j: int| 0 <= j < n ==> #[trigger] ms[j] == entries@[j]@,
                        config_scan(ms.take(i as int)) == Ok::<ConfigModel, Seq<char>>(
                            ConfigModel {
                                project_type,
                                node_modules: opt_node_modules_model(node_modules),
                                run: opt_run_model(run),
                            },
                        ),
                    decreases n - i,
                {
                    let entry = &entries[i];
                    proof {
                        assert(ms.take(i + 1).drop_last() =~= ms.take(i as int));
                        assert(ms.take(i + 1)[i as int] == entry@);
                    }
                    match &entry.key {
                        Key::KnownIdent(s) => {
                            if same_text(s.as_str(), "project_type") {
                                if project_type.is_some() {
                                    proof {
                                        lemma_config_scan_err_extends(ms, i + 1);
                                    }
                                    return Err(String::from_str("duplicate field: project_type"));
                                }
                                match ProjectType::parse(&entry.value) {
                                    Ok(p) => {
                                        project_type = Some(p);
                                    },
                                    Err(e) => {
                                        proof {
                                            lemma_config_scan_err_extends(ms, i + 1);
                                        }
                                        return Err(e);
                                    },
                                }
                            } else if same_text(s.as_str(), "node_modules") {
                                if node_modules.is_some() {
                                    proof {
                                        lemma_config_scan_err_extends(ms, i + 1);
                                    }
                                    return Err(String::from_str("duplicate field: node_modules"));
                                }
                                match NodeModules::parse(&entry.value) {
                                    Ok(nm) => {
                                        node_modules = Some(nm);
                                    },
                                    Err(e) => {
                                        proof {
                                            lemma_config_scan_err_extends(ms, i + 1);
                                        }
                                        return Err(e);
                                    },
                                }
                            } else if same_text(s.as_str(), "run") {
                                if run.is_some() {
                                    proof {
                                        lemma_config_scan_err_extends(ms, i + 1);
                                    }
                                    return Err(String::from_str("duplicate field: run"));
                                }
                                match Run::parse(&entry.value) {
                                    Ok(r) => {
                                        run = Some(r);
                                    },
                                    Err(e) => {
                                        proof {
                                            lemma_config_scan_err_extends(ms, i + 1);
                                        }
                                        return Err(e);
                                    },
                                }
                            } else {
                                proof {
                                    lemma_config_scan_err_extends(ms, i + 1);
                                }
                                return Err(String::from_str("unknown field: ").concat(s.as_str()));
                            }
                        },
                        Key::UnknownIdent(s) => {
                            proof {
                                lemma_config_scan_err_extends(ms, i + 1);
                            }
                            return Err(String::from_str("unknown field: ").concat(s.as_str()));
                        },
                    }
                    i = i + 1;
                }
                assert(ms.take(n as int) =~= ms);
                Ok(Config { project_type, node_modules, run })
            },
            _ => Err(String::from_str("this needs to be a block")),
        }
    }

    fn options() -> (r: Option<Vec<String>>)
        ensures
            r matches Some(v) && names_model(v@) == config_field_names(),
    {
        let v = vec![
            String::from_str("project_type"),
            String::from_str("node_modules"),
            String::from_str("run"),
        ];
        assert(names_model(v@) =~= config_field_names());
        Some(v)
    }
}


/// Reading back a key after recording it gives the value just recorded; the
/// other keys keep their values; no key comes to occur twice.
pub proof fn lemma_assoc_insert_get(
    m: Seq<(Seq<char>, ValueModel)>,
    k: Seq<char>,
    v: ValueModel,
    other: Seq<char>,
)
    ensures
        assoc_get(assoc_insert(m, k, v), k) == Some(v),
        other != k ==> assoc_get(assoc_insert(m, k, v), other) == assoc_get(m, other),
        keys_distinct(m) ==> keys_distinct(assoc_insert(m, k, v)),
    decreases m.len(),
{
    if m.len() == 0 {
        assert(seq![(k, v)].drop_first() =~= Seq::<(Seq<char>, ValueModel)>::empty());
        assert(seq![(k, v)][0] == (k, v));
        assert(assoc_get(Seq::<(Seq<char>, ValueModel)>::empty(), other) is None);
    } else if m[0].0 == k {
        let r = m.update(0, (k, v));
        assert(r.drop_first() =~= m.drop_first());
        assert(r[0] == (k, v));
        if keys_distinct(m) {
            assert forall|i: int, j: int| 0 <= i < j < r.len() implies r[i].0 != r[j].0 by {
                assert(m[i].0 != m[j].0);
            }
        }
    } else {
        let rest = assoc_insert(m.drop_first(), k, v);
        lemma_assoc_insert_get(m.drop_first(), k, v, other);
        let r = seq![m[0]] + rest;
        assert(r.drop_first() =~= rest);
        assert(r[0] == m[0]);
        if keys_distinct(m) {
            lemma_assoc_insert_keys(m.drop_first(), k, v);
            assert forall|i: int, j: int| 0 <= i < j < r.len() implies r[i].0 != r[j].0 by {
                if i == 0 {
                    let y = rest[j - 1];
                    if y.0 != k {
                        let jj = choose|jj: int| 0 <= jj < m.drop_first().len() && m.drop_first()[jj].0 == y.0;
                        assert(m[jj + 1].0 == y.0);
                    }
                } else {
                    assert(keys_distinct(m.drop_first())) by {
                        assert forall|a: int, b: int| 0 <= a < b < m.drop_first().len() implies
                            m.drop_first()[a].0 != m.drop_first()[b].0 by {
                            assert(m[a + 1].0 != m[b + 1].0);
                        }
                    }
                }
            }
        }
    }
}

/// The keys after an insertion are the inserted key and keys that were there.
proof fn lemma_assoc_insert_keys(m: Seq<(Seq<char>, ValueModel)>, k: Seq<char>, v: ValueModel)
    ensures
        forall|j: int| 0 <= j < assoc_insert(m, k, v).len() ==> (#[trigger] assoc_insert(m, k, v)[j]).0 == k
            || exists|i: int| 0 <= i < m.len() && m[i].0 == assoc_insert(m, k, v)[j].0,
    decreases m.len(),
{
    if m.len() > 0 && m[0].0 != k {
        lemma_assoc_insert_keys(m.drop_first(), k, v);
        let r = assoc_insert(m, k, v);
        let rest = assoc_insert(m.drop_first(), k, v);
        assert forall|j: int| 0 <= j < r.len() implies (#[trigger] r[j]).0 == k || exists|i: int|
            0 <= i < m.len() && m[i].0 == r[j].0 by {
            if j > 0 {
                assert(r[j] == rest[j - 1]);
                if rest[j - 1].0 != k {
                    let i = choose|i: int| 0 <= i < m.drop_first().len() && m.drop_first()[i].0 == rest[j - 1].0;
                    assert(m[i + 1].0 == r[j].0);
                }
            } else {
                assert(m[0].0 == r[0].0);
            }
        }
    } else if m.len() > 0 {
        let r = assoc_insert(m, k, v);
        assert forall|j: int| 0 <= j < r.len() implies (#[trigger] r[j]).0 == k || exists|i: int|
            0 <= i < m.len() && m[i].0 == r[j].0 by {
            if j > 0 {
                assert(m[j].0 == r[j].0);
            }
        }
    }
}

/// Every key of the entries is quoted.
pub open spec fn all_keys_quoted(es: Seq<EntryModel>) -> bool {
    forall|i: int| 0 <= i < es.len() ==> (#[trigger] es[i]).key is UnknownIdent
}

/// The value of the last entry whose key is `k`.
pub open spec fn last_value_for(es: Seq<EntryModel>, k: Seq<char>) -> Option<ValueModel>
    decreases es.len(),
{
    if es.len() == 0 {
        None
    } else if es[es.len() - 1].key.text() == k {
        Some(es[es.len() - 1].value)
    } else {
        last_value_for(es.drop_last(), k)
    }
}

/// A `run` block whose keys are all quoted reads as a remainder that holds
/// each key once, with the value of its last entry.
pub proof fn lemma_run_collects_quoted_keys(es: Seq<EntryModel>, k: Seq<char>)
    requires
        all_keys_quoted(es),
    ensures
        run_scan(es) is Ok,
        keys_distinct(run_scan(es)->Ok_0),
        assoc_get(run_scan(es)->Ok_0, k) == last_value_for(es, k),
    decreases es.len(),
{
    if es.len() > 0 {
        let t = es.drop_last();
        let e = es[es.len() - 1];
        assert(all_keys_quoted(t)) by {
            assert forall|i: int| 0 <= i < t.len() implies (#[trigger] t[i]).key is UnknownIdent by {
                assert(es[i] == t[i]);
            }
        }
        lemma_run_collects_quoted_keys(t, k);
        assert(e.key is UnknownIdent);
        let s = e.key.text();
        lemma_assoc_insert_get(run_scan(t)->Ok_0, s, e.value, k);
    }
}

/// A block holding a single entry with an unquoted key.
pub open spec fn single_entry_block(name: Seq<char>, v: ValueModel, row: usize, col: usize) -> ValueModel {
    ValueModel::Block(
        seq![EntryModel { key: KeyModel::KnownIdent(name), value: v, key_row: row, key_col: col }],
    )
}

/// An unquoted key that names a field of the root configuration sets that
/// field, alone, to what its value reads as.
pub proof fn lemma_config_field_from_key(v: ValueModel, row: usize, col: usize)
    ensures
        config_of(single_entry_block("project_type"@, v, row, col)) == match project_type_of(v) {
            Ok(p) => Ok(ConfigModel { project_type: Some(p), ..empty_config() }),
            Err(m) => Err::<ConfigModel, Seq<char>>(m),
        },
        config_of(single_entry_block("node_modules"@, v, row, col)) == match node_modules_of(v) {
            Ok(n) => Ok(ConfigModel { node_modules: Some(n), ..empty_config() }),
            Err(m) => Err::<ConfigModel, Seq<char>>(m),
        },
        config_of(single_entry_block("run"@, v, row, col)) == match run_of(v) {
            Ok(r) => Ok(ConfigModel { run: Some(r), ..empty_config() }),
            Err(m) => Err::<ConfigModel, Seq<char>>(m),
        },
{
    reveal_strlit("project_type");
    reveal_strlit("node_modules");
    reveal_strlit("run");
    assert("project_type"@ != "node_modules"@ && "project_type"@ != "run"@) by {
        assert("project_type"@[0] != "node_modules"@[0]);
        assert("project_type"@.len() != "run"@.len());
    }
    assert("node_modules"@ != "run"@) by {
        assert("node_modules"@.len() != "run"@.len());
    }
    let e1 = EntryModel { key: KeyModel::KnownIdent("project_type"@), value: v, key_row: row, key_col: col };
    let e2 = EntryModel { key: KeyModel::KnownIdent("node_modules"@), value: v, key_row: row, key_col: col };
    let e3 = EntryModel { key: KeyModel::KnownIdent("run"@), value: v, key_row: row, key_col: col };
    assert(seq![e1].drop_last() =~= Seq::<EntryModel>::empty());
    assert(seq![e2].drop_last() =~= Seq::<EntryModel>::empty());
    assert(seq![e3].drop_last() =~= Seq::<EntryModel>::empty());
    assert(config_scan(Seq::<EntryModel>::empty()) == Ok::<ConfigModel, Seq<char>>(empty_config()));
    assert(seq![e1][0] == e1);
    assert(seq![e2][0] == e2);
    assert(seq![e3][0] == e3);
}


/// Each entry has an unquoted key that names a field of the root
/// configuration, no field is named twice, and each value reads as its
/// field's type.
pub open spec fn distinct_readable_config_fields(es: Seq<EntryModel>) -> bool {
    &&& forall|i: int| 0 <= i < es.len() ==> {
        &&& (#[trigger] es[i]).key is KnownIdent
        &&& config_field_names().contains(es[i].key.text())
        &&& es[i].key.text() == "project_type"@ ==> project_type_of(es[i].value) is Ok
        &&& es[i].key.text() == "node_modules"@ ==> node_modules_of(es[i].value) is Ok
        &&& es[i].key.text() == "run"@ ==> run_of(es[i].value) is Ok
    }
    &&& forall|i: int, j: int|
        0 <= i < j < es.len() ==> (#[trigger] es[i]).key.text() != (#[trigger] es[j]).key.text()
}

/// The root configuration with each field read from the entry that names it,
/// wherever that entry stands, and unset where none names it.
pub open spec fn config_from_named_entries(es: Seq<EntryModel>) -> ConfigModel {
    ConfigModel {
        project_type: match last_value_for(es, "project_type"@) {
            Some(v) => Some(project_type_of(v)->Ok_0),
            None => None,
        },
        node_modules: match last_value_for(es, "node_modules"@) {
            Some(v) => Some(node_modules_of(v)->Ok_0),
            None => None,
        },
        run: match last_value_for(es, "run"@) {
            Some(v) => Some(run_of(v)->Ok_0),
            None => None,
        },
    }
}

proof fn lemma_last_value_for_absent(es: Seq<EntryModel>, k: Seq<char>)
    requires
        forall|i: int| 0 <= i < es.len() ==> (#[trigger] es[i]).key.text() != k,
    ensures
        last_value_for(es, k) is None,
    decreases es.len(),
{
    if es.len() > 0 {
        lemma_last_value_for_absent(es.drop_last(), k);
    }
}

/// A root block whose entries name distinct fields, each with a value of its
/// field's type, reads as those fields in any order: the result depends on
/// which field each entry names, not on where the entry stands, and no field
/// is a duplicate of another.
pub proof fn lemma_config_reads_fields_in_any_order(es: Seq<EntryModel>)
    requires
        distinct_readable_config_fields(es),
    ensures
        config_scan(es) == Ok::<ConfigModel, Seq<char>>(config_from_named_entries(es)),
    decreases es.len(),
{
    reveal_strlit("project_type");
    reveal_strlit("node_modules");
    reveal_strlit("run");
    assert("project_type"@[0] != "node_modules"@[0]);
    assert("project_type"@.len() != "run"@.len());
    assert("node_modules"@.len() != "run"@.len());
    if es.len() == 0 {
    } else {
        let t = es.drop_last();
        let e = es[es.len() - 1];
        assert(distinct_readable_config_fields(t)) by {
            assert forall|i: int| 0 <= i < t.len() implies {
                &&& (#[trigger] t[i]).key is KnownIdent
                &&& config_field_names().contains(t[i].key.text())
                &&& t[i].key.text() == "project_type"@ ==> project_type_of(t[i].value) is Ok
                &&& t[i].key.text() == "node_modules"@ ==> node_modules_of(t[i].value) is Ok
                &&& t[i].key.text() == "run"@ ==> run_of(t[i].value) is Ok
            } by {
                assert(t[i] == es[i]);
            }
            assert forall|i: int, j: int| 0 <= i < j < t.len() implies (#[trigger] t[i]).key.text()
                != (#[trigger] t[j]).key.text() by {
                assert(t[i] == es[i] && t[j] == es[j]);
                assert(es[i].key.text() != es[j].key.text());
            }
        }
        lemma_config_reads_fields_in_any_order(t);
        let name = e.key.text();
        assert forall|i: int| 0 <= i < t.len() implies (#[trigger] t[i]).key.text() != name by {
            assert(t[i] == es[i]);
            assert(es[i].key.text() != es[es.len() - 1].key.text());
        }
        lemma_last_value_for_absent(t, name);
        assert(config_field_names().contains(name));
        let k = choose|k: int| 0 <= k < 3 && config_field_names()[k] == name;
        assert(config_field_names()[0] == "project_type"@);
        assert(config_field_names()[1] == "node_modules"@);
        assert(config_field_names()[2] == "run"@);
        assert(e.key == KeyModel::KnownIdent(name));
        assert(config_scan(es) =~= Ok::<ConfigModel, Seq<char>>(config_from_named_entries(es)));
    }
}


/// The value of the last entry whose key is the quoted identifier `k`.
pub open spec fn last_quoted_value(es: Seq<EntryModel>, k: Seq<char>) -> Option<ValueModel>
    decreases es.len(),
{
    if es.len() == 0 {
        None
    } else if es[es.len() - 1].key == KeyModel::UnknownIdent(k) {
        Some(es[es.len() - 1].value)
    } else {
        last_quoted_value(es.drop_last(), k)
    }
}

/// A `node_modules` block that reads without error keeps every dependency:
/// its dependencies hold each quoted key once, with the value of the last
/// entry under that key, whatever unquoted entries stand before or after.
pub proof fn lemma_node_modules_keeps_every_dependency(es: Seq<EntryModel>, k: Seq<char>)
    ensures
        node_modules_scan(es) matches Ok((pm, deps)) ==> {
            &&& keys_distinct(deps)
            &&& assoc_get(deps, k) == last_quoted_value(es, k)
        },
    decreases es.len(),
{
    if es.len() > 0 {
        let t = es.drop_last();
        let e = es[es.len() - 1];
        lemma_node_modules_keeps_every_dependency(t, k);
        if let Ok((pm0, deps0)) = node_modules_scan(t) {
            if let KeyModel::UnknownIdent(s) = e.key {
                lemma_assoc_insert_get(deps0, s, e.value, k);
            }
        }
    }
}

/// A `run` block that reads without error keeps every script: each quoted
/// key once, with the value of its last entry.
pub proof fn lemma_run_keeps_every_script(es: Seq<EntryModel>, k: Seq<char>)
    ensures
        run_scan(es) matches Ok(rem) ==> {
            &&& keys_distinct(rem)
            &&& assoc_get(rem, k) == last_quoted_value(es, k)
        },
    decreases es.len(),
{
    if es.len() > 0 {
        let t = es.drop_last();
        let e = es[es.len() - 1];
        lemma_run_keeps_every_script(t, k);
        if let Ok(rem0) = run_scan(t) {
            if let KeyModel::UnknownIdent(s) = e.key {
                lemma_assoc_insert_get(rem0, s, e.value, k);
            }
        }
    }
}

} // verus!
