//! Compilation: from field trees to a program, the flat list of the
//! operations on the buffers that a conversion fills.
use vstd::prelude::*;
use crate::error::{Error, ErrorKind};
use crate::field::{models, FieldModel, GenericDataType, GenericField};
use crate::layout::{head, layout, layout_children, names_differ, supported, Operation};
use crate::schema::str_eq;
use crate::serialization::own_op;

verus! {

/// One step of a program: the operation and the index of its buffer.
#[derive(Debug, Clone, Copy, PartialEq, Eq, Structural)]
pub struct Instruction {
    pub buffer: usize,
    pub operation: Operation,
}

/// How to compile.
#[derive(Debug, Clone, Copy, PartialEq, Eq, Structural)]
pub struct CompilationOptions {
    /// Whether the fields are the columns of one record: each item is then
    /// a struct with these fields. Otherwise there is one field, and each
    /// item is a value of it.
    pub wrap_with_struct: bool,
}

impl Default for CompilationOptions {
    fn default() -> (options: CompilationOptions)
        ensures
            options.wrap_with_struct,
    {
        CompilationOptions { wrap_with_struct: true }
    }
}

impl CompilationOptions {
    /// The options with `wrap_with_struct` set to `value`.
    pub fn wrap_with_struct(self, value: bool) -> (options: CompilationOptions)
        ensures
            options.wrap_with_struct == value,
    {
        CompilationOptions { wrap_with_struct: value }
    }
}

/// The name of the struct that wraps the columns of a record.
pub open spec fn root_name() -> Seq<char> {
    "$"@
}

/// The field that one item of a conversion is a value of: the one field,
/// or the struct of the fields.
pub open spec fn root_of(fields: Seq<FieldModel>, options: CompilationOptions) -> FieldModel {
    if options.wrap_with_struct {
        FieldModel {
            name: root_name(),
            data_type: GenericDataType::Struct,
            nullable: false,
            children: fields,
        }
    } else {
        fields[0]
    }
}

/// Whether the fields can be compiled: without a wrapping struct there is
/// exactly one, and the tree has a layout.
pub open spec fn compilable(fields: Seq<FieldModel>, options: CompilationOptions) -> bool {
    &&& options.wrap_with_struct || fields.len() == 1
    &&& supported(root_of(fields, options))
}

/// The instructions for a list of operations: operation `i` works on buffer `i`.
pub open spec fn instructions(ops: Seq<Operation>) -> Seq<Instruction> {
    Seq::new(ops.len(), |i: int| Instruction { buffer: i as usize, operation: ops[i] })
}

/// A compiled field tree.
#[derive(Debug)]
pub struct Program {
    pub options: CompilationOptions,
    /// The field that each item is a value of.
    pub root: GenericField,
    /// The operations on the buffers, in the order of the buffers.
    pub instructions: Vec<Instruction>,
}

impl Program {
    /// The tree has a layout, and the instructions are those of its layout.
    pub open spec fn well_formed(&self) -> bool {
        &&& supported(self.root@)
        &&& self.instructions@ == instructions(layout(self.root@))
    }
}

/// Whether no two children of `f` share a name.
fn names_distinct(f: &GenericField) -> (r: bool)
    ensures
        r == names_differ(f@.children),
{
    proof {
        f.lemma_view();
    }
    let mut i: usize = 0;
    while i < f.children.len()
        invariant
            i <= f.children@.len(),
            f@.children == models(f.children@),
            forall|a: int, b: int|
                0 <= a < b < f.children@.len() && a < i ==> (#[trigger] f@.children[a]).name != (
                #[trigger] f@.children[b]).name,
        decreases f.children@.len() - i,
    {
        let mut j: usize = i + 1;
        while j < f.children.len()
            invariant
                i < j <= f.children@.len(),
                f@.children == models(f.children@),
                forall|b: int|
                    i < b < j ==> f@.children[i as int].name != (#[trigger] f@.children[b]).name,
            decreases f.children@.len() - j,
        {
            proof {
                f.children@[i as int].lemma_view();
                f.children@[j as int].lemma_view();
            }
            if str_eq(f.children[i].name.as_str(), f.children[j].name.as_str()) {
                assert(f@.children[i as int].name == f@.children[j as int].name);
                return false;
            }
            j = j + 1;
        }
        i = i + 1;
    }
    true
}

/// Whether the field tree can be laid out in buffers.
pub fn is_supported(f: &GenericField) -> (r: bool)
    ensures
        r == supported(f@),
    decreases f@,
{
    proof {
        f.lemma_view();
    }
    let n = f.children.len();
    let shape = match f.data_type {
        GenericDataType::Struct => names_distinct(f),
        GenericDataType::List => n == 1,
        GenericDataType::Mapping => n == 2 && !f.children[0].nullable,
        GenericDataType::Null | GenericDataType::Backend { .. } => false,
        _ => n == 0,
    };
    proof {
        if n > 0 {
            f.children@[0].lemma_view();
        }
    }
    if !shape {
        return false;
    }
    let mut j: usize = 0;
    while j < n
        invariant
            j <= n,
            n == f.children@.len(),
            f@.children == models(f.children@),
            forall|i: int| 0 <= i < j ==> supported(#[trigger] f@.children[i]),
        decreases n - j,
    {
        assert(f@.children[j as int] == f.children@[j as int]@);
        if !is_supported(&f.children[j]) {
            assert(!supported(f@.children[j as int]));
            return false;
        }
        j = j + 1;
    }
    true
}

/// Appends the operations of the layout of `f`.
fn emit(f: &GenericField, out: &mut Vec<Operation>)
    ensures
        final(out)@ == old(out)@ + layout(f@),
    decreases f@,
{
    proof {
        f.lemma_view();
    }
    let ghost start = out@;
    if f.nullable {
        out.push(Operation::PushValidity);
    }
    match own_op(f.data_type) {
        Some(op) => {
            out.push(op);
        },
        None => {},
    }
    assert(out@ =~= start + head(f@));
    let mut j: usize = 0;
    while j < f.children.len()
        invariant
            j <= f.children@.len(),
            f@.children == models(f.children@),
            out@ == start + head(f@) + layout_children(f@, j as int),
        decreases f.children@.len() - j,
    {
        let ghost before = out@;
        assert(f@.children[j as int] == f.children@[j as int]@);
        emit(&f.children[j], out);
        j = j + 1;
        assert(out@ =~= start + head(f@) + layout_children(f@, j as int));
    }
    assert(out@ =~= start + layout(f@));
}

/// Compiles fields to the program that fills their buffers.
///
/// With `wrap_with_struct` the fields are the columns of a record and each
/// item is a struct of them; without it there must be exactly one field.
/// Fails on a tree without a layout, before any data is processed.
pub fn compile_serialization(fields: &[GenericField], options: CompilationOptions) -> (r: Result<
    Program,
    Error,
>)
    ensures
        match r {
            Ok(program) => {
                &&& compilable(models(fields@), options)
                &&& program.options == options
                &&& program.root@ == root_of(models(fields@), options)
                &&& program.well_formed()
            },
            Err(e) => !compilable(models(fields@), options) && e.kind
                == ErrorKind::UnsupportedField,
        },
{
    let root = if options.wrap_with_struct {
        let mut children: Vec<GenericField> = Vec::new();
        let mut j: usize = 0;
        while j < fields.len()
            invariant
                j <= fields@.len(),
                children@.len() == j,
                forall|i: int| 0 <= i < j ==> (#[trigger] children@[i])@ == fields@[i]@,
            decreases fields@.len() - j,
        {
            children.push(fields[j].duplicate());
            j = j + 1;
        }
        let root = GenericField {
            name: "$".to_owned(),
            data_type: GenericDataType::Struct,
            nullable: false,
            children,
        };
        proof {
            root.lemma_view();
            assert(models(root.children@) =~= models(fields@));
        }
        root
    } else {
        if fields.len() != 1 {
            return Err(Error::new(ErrorKind::UnsupportedField));
        }
        fields[0].duplicate()
    };
    if !is_supported(&root) {
        return Err(Error::new(ErrorKind::UnsupportedField));
    }
    let mut ops: Vec<Operation> = Vec::new();
    emit(&root, &mut ops);
    assert(ops@ =~= layout(root@));
    let mut list: Vec<Instruction> = Vec::new();
    let mut i: usize = 0;
    while i < ops.len()
        invariant
            i <= ops@.len(),
            list@.len() == i,
            forall|k: int|
                0 <= k < i ==> (#[trigger] list@[k]) == (Instruction {
                    buffer: k as usize,
                    operation: ops@[k],
                }),
        decreases ops@.len() - i,
    {
        list.push(Instruction { buffer: i, operation: ops[i] });
        i = i + 1;
    }
    assert(list@ =~= instructions(layout(root@)));
    Ok(Program { options, root, instructions: list })
}

} // verus!
