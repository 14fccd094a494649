//! How the editor's diagnostics agree with what the typed options accept.

use vstd::prelude::*;
use crate::parser::{EntryModel, KeyModel, ValueModel};
use crate::schema::{Field, FieldKind, ObjSchema, RestKind, field_names, is_config_schema,
    is_node_modules_schema, is_run_schema};
use crate::options::{
    config_scan, config_field_names, node_modules_scan, run_scan, project_type_of,
    package_manager_of, project_type_names, package_manager_names, names_model, node_modules_of,
    run_of,
};
use crate::editor::{entries_diags, entry_diags, value_diags, rest_value_diags, field_index, field_for_key};

verus! {

/// No entry of a block nested in `es` has a block as its value.
pub open spec fn nested_values_simple(es: Seq<EntryModel>) -> bool {
    forall|i: int| 0 <= i < es.len() ==> block_values_simple(#[trigger] es[i].value)
}

/// A value that is a block holds only entries with simple values.
pub open spec fn block_values_simple(v: ValueModel) -> bool {
    match v {
        ValueModel::Block(cs) => forall|j: int| 0 <= j < cs.len() ==> !((#[trigger] cs[j]).value is Block),
        _ => true,
    }
}

/// The index of a name among three distinct field names.
proof fn lemma_field_index_three(fields: Seq<Field>, j: int)
    requires
        fields.len() == 3,
        field_names(fields) == config_field_names(),
        0 <= j < 3,
    ensures
        field_index(fields, fields[j].name@) == Some(j),
{
    reveal_strlit("project_type");
    reveal_strlit("node_modules");
    reveal_strlit("run");
    assert(fields[0].name@ == field_names(fields)[0]);
    assert(fields[1].name@ == field_names(fields)[1]);
    assert(fields[2].name@ == field_names(fields)[2]);
    assert("project_type"@[0] != "node_modules"@[0]);
    assert("project_type"@.len() != "run"@.len());
    assert("node_modules"@.len() != "run"@.len());
    let n = fields[j].name@;
    let f2 = fields.drop_last();
    let f1 = f2.drop_last();
    let f0 = f1.drop_last();
    assert(f0.len() == 0);
    assert(field_index(f0, n) is None);
    assert(f1[0] == fields[0]);
    assert(f2[1] == fields[1]);
    assert(field_index(f1, n) == if fields[0].name@ == n { Some(0int) } else { None::<int> });
    assert(field_index(f2, n) == if j <= 1 { Some(j) } else { None::<int> });
}

proof fn lemma_single_field_index(fields: Seq<Field>, name: Seq<char>)
    requires
        fields.len() == 1,
    ensures
        field_index(fields, name) == if fields[0].name@ == name {
            Some(0int)
        } else {
            None::<int>
        },
{
    assert(fields.drop_last().len() == 0);
    assert(field_index(fields.drop_last(), name) is None);
}

proof fn lemma_empty_field_index(fields: Seq<Field>, name: Seq<char>)
    requires
        fields.len() == 0,
    ensures
        field_index(fields, name) is None,
{
}

/// A `node_modules` block that reads without error, whose values are all
/// simple, draws no diagnostics.
proof fn lemma_node_modules_no_diags(es: Seq<EntryModel>, s: ObjSchema)
    requires
        is_node_modules_schema(s),
        node_modules_scan(es) is Ok,
        forall|j: int| 0 <= j < es.len() ==> !((#[trigger] es[j]).value is Block),
    ensures
        entries_diags(es, s) == Seq::<crate::editor::DiagnosticModel>::empty(),
    decreases es.len(),
{
    if es.len() > 0 {
        let t = es.drop_last();
        let e = es[es.len() - 1];
        assert forall|j: int| 0 <= j < t.len() implies !((#[trigger] t[j]).value is Block) by {
            assert(t[j] == es[j]);
        }
        lemma_node_modules_no_diags(t, s);
        lemma_single_field_index(s.fields@, e.key.text());
        reveal_strlit("package_manager");
        match e.key {
            KeyModel::KnownIdent(name) => {
                assert(name == "package_manager"@);
                assert(package_manager_of(e.value) is Ok);
                reveal_strlit("Pnpm");
                reveal_strlit("Npm");
                let vs = s.fields@[0].kind->Enum_0;
                assert(names_model(vs@) == package_manager_names());
                let v = e.value->KnownIdent_0;
                assert(package_manager_names()[0] == "Pnpm"@);
                assert(package_manager_names()[1] == "Npm"@);
                assert(names_model(vs@).contains(v));
                assert(value_diags(e.value, e, s.fields@[0].kind) =~= Seq::<crate::editor::DiagnosticModel>::empty());
            },
            KeyModel::UnknownIdent(_) => {
                assert(rest_value_diags(e.value, e, RestKind::Str) =~= Seq::<crate::editor::DiagnosticModel>::empty());
            },
        }
        assert(entries_diags(es, s) =~= entries_diags(t, s) + entry_diags(e, s));
    }
}

/// A `run` block that reads without error, whose values are all simple,
/// draws no diagnostics.
proof fn lemma_run_no_diags(es: Seq<EntryModel>, s: ObjSchema)
    requires
        is_run_schema(s),
        run_scan(es) is Ok,
        forall|j: int| 0 <= j < es.len() ==> !((#[trigger] es[j]).value is Block),
    ensures
        entries_diags(es, s) == Seq::<crate::editor::DiagnosticModel>::empty(),
    decreases es.len(),
{
    if es.len() > 0 {
        let t = es.drop_last();
        let e = es[es.len() - 1];
        assert forall|j: int| 0 <= j < t.len() implies !((#[trigger] t[j]).value is Block) by {
            assert(t[j] == es[j]);
        }
        lemma_run_no_diags(t, s);
        lemma_empty_field_index(s.fields@, e.key.text());
        assert(e.key is UnknownIdent);
        assert(rest_value_diags(e.value, e, RestKind::Str) =~= Seq::<crate::editor::DiagnosticModel>::empty());
        assert(entries_diags(es, s) =~= entries_diags(t, s) + entry_diags(e, s));
    }
}

/// A configuration that reads as a `Config` without error draws no
/// diagnostic from the editor, provided the free-form values of its nested
/// blocks are simple values.
pub proof fn lemma_accepted_config_has_no_diagnostics(es: Seq<EntryModel>, s: ObjSchema)
    requires
        is_config_schema(s),
        config_scan(es) is Ok,
        nested_values_simple(es),
    ensures
        entries_diags(es, s) == Seq::<crate::editor::DiagnosticModel>::empty(),
    decreases es.len(),
{
    if es.len() > 0 {
        let t = es.drop_last();
        let e = es[es.len() - 1];
        assert(nested_values_simple(t)) by {
            assert forall|i: int| 0 <= i < t.len() implies block_values_simple(#[trigger] t[i].value) by {
                assert(t[i] == es[i]);
            }
        }
        lemma_accepted_config_has_no_diagnostics(t, s);
        reveal_strlit("project_type");
        reveal_strlit("node_modules");
        reveal_strlit("run");
        let name = e.key->KnownIdent_0;
        assert(e.key is KnownIdent);
        let fields = s.fields@;
        assert(fields[0].name@ == field_names(fields)[0]);
        assert(fields[1].name@ == field_names(fields)[1]);
        assert(fields[2].name@ == field_names(fields)[2]);
        if name == "project_type"@ {
            lemma_field_index_three(fields, 0);
            reveal_strlit("Node");
            reveal_strlit("Rust");
            assert(project_type_of(e.value) is Ok);
            let vs = fields[0].kind->Enum_0;
            let v = e.value->KnownIdent_0;
            assert(project_type_names()[0] == "Node"@);
            assert(project_type_names()[1] == "Rust"@);
            assert(names_model(vs@).contains(v));
            assert(value_diags(e.value, e, fields[0].kind) =~= Seq::<crate::editor::DiagnosticModel>::empty());
        } else if name == "node_modules"@ {
            lemma_field_index_three(fields, 1);
            assert(node_modules_of(e.value) is Ok);
            let cs = e.value->Block_0;
            assert(es[es.len() - 1] == e);
            lemma_node_modules_no_diags(cs, fields[1].kind->Object_0);
        } else {
            assert(name == "run"@);
            lemma_field_index_three(fields, 2);
            assert(run_of(e.value) is Ok);
            let cs = e.value->Block_0;
            assert(es[es.len() - 1] == e);
            lemma_run_no_diags(cs, fields[2].kind->Object_0);
        }
        assert(entries_diags(es, s) =~= entries_diags(t, s) + entry_diags(e, s));
    }
}

} // verus!
