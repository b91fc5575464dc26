use vstd::prelude::*;

use crate::ast::names_model;
use crate::bytecode::{Chunk, ChunkModel, Constant, ConstantModel, Function, FunctionModel, OpCode};
use crate::text::{decimal, push_decimal, push_zero_padded, zero_padded};

verus! {

/// The label shown for the constant at `index`: the text given for it, or a
/// marker when there is no such constant.
pub open spec fn constant_label(labels: Seq<Seq<char>>, index: nat) -> Seq<char> {
    if index < labels.len() {
        labels[index as int]
    } else {
        "<invalid constant>"@
    }
}

/// The name of the global at `index`, or a marker when there is none.
pub open spec fn global_label(names: Seq<Seq<char>>, index: nat) -> Seq<char> {
    if index < names.len() {
        names[index as int]
    } else {
        "<invalid name>"@
    }
}

/// One instruction in text form.
pub open spec fn instruction_text(op: OpCode, labels: Seq<Seq<char>>, names: Seq<Seq<char>>) -> Seq<char> {
    match op {
        OpCode::Constant(i) => "CONSTANT "@ + decimal(i as nat) + " ("@ + constant_label(labels, i as nat) + ")"@,
        OpCode::LoadGlobal(i) => "LOAD_GLOBAL "@ + decimal(i as nat) + " ("@ + global_label(names, i as nat) + ")"@,
        OpCode::StoreGlobal(i) => "STORE_GLOBAL "@ + decimal(i as nat) + " ("@ + global_label(names, i as nat)
            + ")"@,
        OpCode::LoadLocal(i) => "LOAD_LOCAL "@ + decimal(i as nat),
        OpCode::StoreLocal(i) => "STORE_LOCAL "@ + decimal(i as nat),
        OpCode::Pop => "POP"@,
        OpCode::Negate => "NEGATE"@,
        OpCode::Not => "NOT"@,
        OpCode::Add => "ADD"@,
        OpCode::Subtract => "SUBTRACT"@,
        OpCode::Multiply => "MULTIPLY"@,
        OpCode::Divide => "DIVIDE"@,
        OpCode::Modulo => "MODULO"@,
        OpCode::Equal => "EQUAL"@,
        OpCode::NotEqual => "NOT_EQUAL"@,
        OpCode::Less => "LESS"@,
        OpCode::LessEqual => "LESS_EQUAL"@,
        OpCode::Greater => "GREATER"@,
        OpCode::GreaterEqual => "GREATER_EQUAL"@,
        OpCode::And => "AND"@,
        OpCode::Or => "OR"@,
        OpCode::JumpIfFalse(t) => "JUMP_IF_FALSE "@ + decimal(t as nat),
        OpCode::Jump(t) => "JUMP "@ + decimal(t as nat),
        OpCode::Print => "PRINT"@,
        OpCode::Call(i) => "CALL function#"@ + decimal(i as nat),
        OpCode::Return => "RETURN"@,
        OpCode::Halt => "HALT"@,
    }
}

/// The listing of `code`: one line per instruction, its offset zero-padded
/// to four digits, two spaces, then the instruction.
pub open spec fn code_text(code: Seq<OpCode>, labels: Seq<Seq<char>>, names: Seq<Seq<char>>) -> Seq<char>
    decreases code.len(),
{
    if code.len() == 0 {
        Seq::empty()
    } else {
        let k = (code.len() - 1) as nat;
        code_text(code.subrange(0, k as int), labels, names) + zero_padded(k, 4) + "  "@ + instruction_text(
            code[k as int],
            labels,
            names,
        ) + "\n"@
    }
}

/// Names joined with `, `.
pub open spec fn joined(ns: Seq<Seq<char>>) -> Seq<char>
    decreases ns.len(),
{
    if ns.len() == 0 {
        Seq::empty()
    } else if ns.len() == 1 {
        ns[0]
    } else {
        joined(ns.subrange(0, ns.len() - 1)) + ", "@ + ns[ns.len() - 1]
    }
}

/// A function's section: its header, its locals when it has any, its code.
pub open spec fn function_text(f: FunctionModel, labels: Seq<Seq<char>>) -> Seq<char> {
    "\n== ASTER function "@ + f.name + "("@ + decimal(f.arity) + ") ==\n"@ + (if f.local_names.len() > 0 {
        "locals: "@ + joined(f.local_names) + "\n"@
    } else {
        Seq::empty()
    }) + code_text(f.code, labels, Seq::empty())
}

pub open spec fn functions_text(
    fs: Seq<FunctionModel>,
    labels: Seq<Seq<Seq<char>>>,
) -> Seq<char>
    decreases fs.len(),
{
    if fs.len() == 0 {
        Seq::empty()
    } else {
        let k = fs.len() - 1;
        functions_text(fs.subrange(0, k), labels) + function_text(fs[k], labels[k])
    }
}

/// The listing of a chunk: the top-level code, then each function; constants
/// are shown by the labels given for them.
pub open spec fn disassembly(
    chunk: ChunkModel,
    main_labels: Seq<Seq<char>>,
    function_labels: Seq<Seq<Seq<char>>>,
) -> Seq<char> {
    "== ASTER main ==\n"@ + code_text(chunk.code, main_labels, chunk.names) + functions_text(
        chunk.functions,
        function_labels,
    )
}

pub open spec fn labels_view(ls: Seq<String>) -> Seq<Seq<char>> {
    names_model(ls)
}

pub open spec fn nested_labels_view(ls: Seq<Vec<String>>) -> Seq<Seq<Seq<char>>> {
    ls.map_values(|v: Vec<String>| names_model(v@))
}

/// The listing of a chunk, given a label for each of its constants:
/// `main_labels[i]` for the top-level constant `i`, and
/// `function_labels[f][i]` for constant `i` of function `f`.
pub fn disassemble(chunk: &Chunk, main_labels: &Vec<String>, function_labels: &Vec<Vec<String>>) -> (s: String)
    requires
        main_labels@.len() == chunk.constants@.len(),
        function_labels@.len() == chunk.functions@.len(),
        forall|i: int|
            0 <= i < chunk.functions@.len() ==> #[trigger] function_labels@[i]@.len()
                == chunk.functions@[i].constants@.len(),
    ensures
        s@ == disassembly(chunk@, labels_view(main_labels@), nested_labels_view(function_labels@)),
{
    let mut output = String::from_str("== ASTER main ==\n");
    let ghost start = output@;
    format_code(&mut output, &chunk.code, main_labels, &chunk.names);
    let ghost after_main = output@;
    let ghost fs = chunk@.functions;
    let ghost fl = nested_labels_view(function_labels@);
    let n = chunk.functions.len();
    let mut i: usize = 0;
    proof {
        assert(fs.subrange(0, 0) =~= Seq::<FunctionModel>::empty());
    }
    while i < n
        invariant
            n == chunk.functions@.len(),
            fs == chunk@.functions,
            fl == nested_labels_view(function_labels@),
            function_labels@.len() == n,
            i <= n,
            output@ == after_main + functions_text(fs.subrange(0, i as int), fl),
        decreases n - i,
    {
        let ghost before = output@;
        format_function_section(&mut output, &chunk.functions[i], &function_labels[i]);
        proof {
            let sub = fs.subrange(0, i + 1);
            assert(sub.subrange(0, i as int) =~= fs.subrange(0, i as int));
            assert(sub[i as int] == chunk.functions@[i as int]@);
            assert(output@ =~= after_main + functions_text(sub, fl));
        }
        i = i + 1;
    }
    proof {
        assert(fs.subrange(0, n as int) =~= fs);
        assert(output@ =~= "== ASTER main ==\n"@ + code_text(chunk@.code, labels_view(main_labels@), chunk@.names)
            + functions_text(chunk@.functions, fl));
    }
    output
}

/// A function's header line, then its locals and code.
fn format_function_section(output: &mut String, function: &Function, labels: &Vec<String>)
    ensures
        final(output)@ == old(output)@ + function_text(function@, labels_view(labels@)),
{
    output.append("\n== ASTER function ");
    output.append(function.name.as_str());
    output.append("(");
    push_decimal(output, function.arity);
    output.append(") ==\n");
    let ghost header = output@;
    format_function(output, function, labels);
    proof {
        assert(output@ =~= old(output)@ + function_text(function@, labels_view(labels@)));
    }
}

fn format_function(output: &mut String, function: &Function, labels: &Vec<String>)
    ensures
        final(output)@ == old(output)@ + (if function@.local_names.len() > 0 {
            "locals: "@ + joined(function@.local_names) + "\n"@
        } else {
            Seq::empty()
        }) + code_text(function@.code, labels_view(labels@), Seq::empty()),
{
    if function.local_names.len() > 0 {
        output.append("locals: ");
        push_joined(output, &function.local_names);
        output.append("\n");
    }
    let ghost mid = output@;
    let empty: Vec<String> = Vec::new();
    proof {
        assert(labels_view(empty@) =~= Seq::<Seq<char>>::empty());
    }
    format_code(output, &function.code, labels, &empty);
    proof {
        if function.local_names.len() > 0 {
            assert(output@ =~= old(output)@ + ("locals: "@ + joined(function@.local_names) + "\n"@) + code_text(
                function@.code,
                labels_view(labels@),
                Seq::empty(),
            ));
        } else {
            assert(output@ =~= old(output)@ + Seq::<char>::empty() + code_text(
                function@.code,
                labels_view(labels@),
                Seq::empty(),
            ));
        }
    }
}

/// Appends the names joined with `, `.
fn push_joined(output: &mut String, names: &Vec<String>)
    ensures
        final(output)@ == old(output)@ + joined(names_model(names@)),
{
    let ghost ns = names_model(names@);
    let n = names.len();
    let mut i: usize = 0;
    proof {
        assert(ns.subrange(0, 0) =~= Seq::<Seq<char>>::empty());
        assert(old(output)@ + joined(ns.subrange(0, 0)) =~= old(output)@);
    }
    while i < n
        invariant
            n == names@.len(),
            ns == names_model(names@),
            i <= n,
            output@ == old(output)@ + joined(ns.subrange(0, i as int)),
        decreases n - i,
    {
        if i > 0 {
            output.append(", ");
        }
        output.append(names[i].as_str());
        proof {
            let sub = ns.subrange(0, i + 1);
            assert(sub.subrange(0, i as int) =~= ns.subrange(0, i as int));
            assert(sub[i as int] == names@[i as int]@);
            if i == 0 {
                assert(joined(sub) == sub[0]);
                assert(joined(ns.subrange(0, 0)) =~= Seq::<char>::empty());
            }
            assert(output@ =~= old(output)@ + joined(sub));
        }
        i = i + 1;
    }
    proof {
        assert(ns.subrange(0, n as int) =~= ns);
    }
}

/// Appends the listing of `code`.
fn format_code(output: &mut String, code: &Vec<OpCode>, labels: &Vec<String>, names: &Vec<String>)
    ensures
        final(output)@ == old(output)@ + code_text(code@, labels_view(labels@), labels_view(names@)),
{
    let n = code.len();
    let mut offset: usize = 0;
    proof {
        assert(code@.subrange(0, 0) =~= Seq::<OpCode>::empty());
        assert(old(output)@ + Seq::<char>::empty() =~= old(output)@);
    }
    while offset < n
        invariant
            n == code@.len(),
            offset <= n,
            output@ == old(output)@ + code_text(code@.subrange(0, offset as int), labels_view(labels@), labels_view(names@)),
        decreases n - offset,
    {
        let ghost before = output@;
        push_zero_padded(output, offset, 4);
        output.append("  ");
        let text = format_instruction(&code[offset], labels, names);
        output.append(text.as_str());
        output.append("\n");
        proof {
            let sub = code@.subrange(0, offset + 1);
            assert(sub.subrange(0, offset as int) =~= code@.subrange(0, offset as int));
            assert(output@ =~= old(output)@ + code_text(sub, labels_view(labels@), labels_view(names@)));
        }
        offset = offset + 1;
    }
    proof {
        assert(code@.subrange(0, n as int) =~= code@);
    }
}

/// One instruction in text form.
pub fn format_instruction(instruction: &OpCode, labels: &Vec<String>, names: &Vec<String>) -> (s: String)
    ensures
        s@ == instruction_text(*instruction, labels_view(labels@), labels_view(names@)),
{
    match instruction {
        OpCode::Constant(index) => {
            let mut s = String::from_str("CONSTANT ");
            push_decimal(&mut s, *index);
            s.append(" (");
            s.append(constant_name(labels, *index).as_str());
            s.append(")");
            s
        },
        OpCode::LoadGlobal(index) => {
            let mut s = String::from_str("LOAD_GLOBAL ");
            push_decimal(&mut s, *index);
            s.append(" (");
            s.append(name_name(names, *index).as_str());
            s.append(")");
            s
        },
        OpCode::StoreGlobal(index) => {
            let mut s = String::from_str("STORE_GLOBAL ");
            push_decimal(&mut s, *index);
            s.append(" (");
            s.append(name_name(names, *index).as_str());
            s.append(")");
            s
        },
        OpCode::LoadLocal(index) => {
            let mut s = String::from_str("LOAD_LOCAL ");
            push_decimal(&mut s, *index);
            s
        },
        OpCode::StoreLocal(index) => {
            let mut s = String::from_str("STORE_LOCAL ");
            push_decimal(&mut s, *index);
            s
        },
        OpCode::Pop => String::from_str("POP"),
        OpCode::Negate => String::from_str("NEGATE"),
        OpCode::Not => String::from_str("NOT"),
        OpCode::Add => String::from_str("ADD"),
        OpCode::Subtract => String::from_str("SUBTRACT"),
        OpCode::Multiply => String::from_str("MULTIPLY"),
        OpCode::Divide => String::from_str("DIVIDE"),
        OpCode::Modulo => String::from_str("MODULO"),
        OpCode::Equal => String::from_str("EQUAL"),
        OpCode::NotEqual => String::from_str("NOT_EQUAL"),
        OpCode::Less => String::from_str("LESS"),
        OpCode::LessEqual => String::from_str("LESS_EQUAL"),
        OpCode::Greater => String::from_str("GREATER"),
        OpCode::GreaterEqual => String::from_str("GREATER_EQUAL"),
        OpCode::And => String::from_str("AND"),
        OpCode::Or => String::from_str("OR"),
        OpCode::JumpIfFalse(target) => {
            let mut s = String::from_str("JUMP_IF_FALSE ");
            push_decimal(&mut s, *target);
            s
        },
        OpCode::Jump(target) => {
            let mut s = String::from_str("JUMP ");
            push_decimal(&mut s, *target);
            s
        },
        OpCode::Print => String::from_str("PRINT"),
        OpCode::Call(index) => {
            let mut s = String::from_str("CALL function#");
            push_decimal(&mut s, *index);
            s
        },
        OpCode::Return => String::from_str("RETURN"),
        OpCode::Halt => String::from_str("HALT"),
    }
}

/// The label of the constant at `index`, or a marker when there is none.
pub fn constant_name(labels: &Vec<String>, index: usize) -> (s: String)
    ensures
        s@ == constant_label(labels_view(labels@), index as nat),
{
    if index < labels.len() {
        labels[index].clone()
    } else {
        String::from_str("<invalid constant>")
    }
}

/// The global name at `index`, or a marker when there is none.
pub fn name_name(names: &Vec<String>, index: usize) -> (s: String)
    ensures
        s@ == global_label(labels_view(names@), index as nat),
{
    if index < names.len() {
        names[index].clone()
    } else {
        String::from_str("<invalid name>")
    }
}

/// The text that `{:?}` gives for a string: the string in double quotes,
/// with quotes, backslashes and characters that do not print escaped.
pub uninterp spec fn debug_text(s: Seq<char>) -> Seq<char>;

/// Formats the string with `{:?}` (std's `Debug` for `str`). Claimed of it:
/// the result is `debug_text` of the string.
#[verifier::external_body]
fn debug_quoted(s: &String) -> (r: String)
    ensures
        r@ == debug_text(s@),
{
    format!("{:?}", s)
}

/// The label of a constant that is not a number: how a listing shows it.
/// A number's label is its `f64` written with `{:?}`, which is left to the
/// caller.
pub open spec fn plain_label(c: ConstantModel) -> Option<Seq<char>> {
    match c {
        ConstantModel::Number(_) => None,
        ConstantModel::Str(s) => Some("String("@ + debug_text(s) + ")"@),
        ConstantModel::Boolean(b) => Some(
            if b {
                "Boolean(true)"@
            } else {
                "Boolean(false)"@
            },
        ),
        ConstantModel::Void => Some("Void"@),
    }
}

/// The label of a constant that is not a number (see `plain_label`).
pub fn plain_constant_label(constant: &Constant) -> (r: Option<String>)
    ensures
        match r {
            Some(s) => plain_label(constant@) == Some(s@),
            None => plain_label(constant@) is None,
        },
{
    match constant {
        Constant::Number(_) => None,
        Constant::String(text) => {
            let mut label = String::from_str("String(");
            label.append(debug_quoted(text).as_str());
            label.append(")");
            Some(label)
        },
        Constant::Boolean(b) => if *b {
            Some(String::from_str("Boolean(true)"))
        } else {
            Some(String::from_str("Boolean(false)"))
        },
        Constant::Void => Some(String::from_str("Void")),
    }
}

} // verus!
