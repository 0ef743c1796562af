use vstd::prelude::*;
use crate::lexer::Span;
use crate::parser::{Expr, Expr_, Node, Program};

verus! {

/// The state of the code generator after some statements: the program
/// counter, the labels declared so far in order of declaration, and the
/// bytes emitted.
pub struct Gen {
    pub pc: nat,
    pub labels: Seq<(Seq<char>, nat)>,
    pub out: Seq<u8>,
}

/// The address of a label: its latest declaration wins.
pub open spec fn lookup(labels: Seq<(Seq<char>, nat)>, name: Seq<char>) -> Option<nat>
    decreases labels.len(),
{
    if labels.len() == 0 {
        None
    } else if labels.last().0 == name {
        Some(labels.last().1)
    } else {
        lookup(labels.drop_last(), name)
    }
}

/// The two bytes of a statement that is neither a label nor a jump.
/// Byte arithmetic wraps; with registers below 16 and draw heights below 16
/// no sum leaves the byte.
pub open spec fn encode_fixed(n: Node) -> Seq<u8> {
    match n {
        Node::Clear => seq![0x00u8, 0xE0u8],
        Node::AssignRegisterRegister(r1, r2) => seq![
            ((0x80 + r1) % 256) as u8,
            ((r2 * 16) % 256) as u8,
        ],
        Node::AssignRegisterInteger(r, n) => seq![((0x60 + r) % 256) as u8, n],
        Node::AssignIRegisterInteger(nnn) => seq![
            (0xD0 + (nnn / 256) % 16) as u8,
            (nnn % 256) as u8,
        ],
        Node::AssignIRegisterRegisterSprite(r) => seq![((0xF0 + r) % 256) as u8, 0x29u8],
        Node::DrawIRegister(r1, r2, n) => seq![
            ((0xD0 + r1) % 256) as u8,
            ((r2 * 16 + n) % 256) as u8,
        ],
        Node::IncrementRegisterInteger(r, n) => seq![((0x70 + r) % 256) as u8, n],
        _ => Seq::empty(),
    }
}

/// The two bytes of a jump to the label at `target`: bits 8 to 11 of the
/// target after 0x1, then the low byte of the target plus 510.
pub open spec fn encode_goto(target: nat) -> Seq<u8> {
    seq![(0x10 + (target / 256) % 16) as u8, ((target + 510) % 256) as u8]
}

/// One statement, the `line`-th, taken by the generator: it reserves a slot
/// of two bytes; a label records the slot's address and gives the slot back.
/// The error is the line and the name of a label not declared so far.
pub open spec fn step(g: Gen, n: Node, line: nat) -> Result<Gen, (nat, Seq<char>)> {
    let pc = g.pc + 2;
    match n {
        Node::DeclareLabel(id) => Ok(Gen { pc: g.pc, labels: g.labels.push((id, pc)), out: g.out }),
        Node::GotoLabel(id) => match lookup(g.labels, id) {
            Some(t) => Ok(Gen { pc, labels: g.labels, out: g.out + encode_goto(t) }),
            None => Err((line, id)),
        },
        _ => Ok(Gen { pc, labels: g.labels, out: g.out + encode_fixed(n) }),
    }
}

/// The generator before any statement.
pub open spec fn initial() -> Gen {
    Gen { pc: 0, labels: Seq::empty(), out: Seq::empty() }
}

/// The generator after the first `n` statements, or the first error.
pub open spec fn run(stmts: Seq<(Node, Span)>, n: nat) -> Result<Gen, (nat, Seq<char>)>
    decreases n,
{
    if n == 0 || n > stmts.len() {
        Ok(initial())
    } else {
        match run(stmts, (n - 1) as nat) {
            Ok(g) => step(g, stmts[n - 1].0, n),
            Err(e) => Err(e),
        }
    }
}

/// What the whole program compiles to.
pub open spec fn generate(stmts: Seq<(Node, Span)>) -> Result<Gen, (nat, Seq<char>)> {
    run(stmts, stmts.len())
}

/// The most instructions (statements other than labels) whose slots, and a
/// label after the last of them, a 16-bit program counter can address.
pub const MAX_INSTRUCTIONS: usize = 32766;

/// A jump to a label that is not declared before it: `line` is the
/// 1-based position of the jump among the statements.
#[derive(Debug)]
pub struct InterpError {
    pub line: usize,
    pub label: String,
}

struct Props {
    pc: u16,
    ins: Vec<u8>,
    labels: Vec<(String, u16)>,
    line: usize,
}

/// The label table with names viewed as their characters.
pub open spec fn labels_view(v: Seq<(String, u16)>) -> Seq<(Seq<char>, nat)> {
    v.map_values(|x: (String, u16)| (x.0@, x.1 as nat))
}

impl Props {
    spec fn model(&self) -> Gen {
        Gen { pc: self.pc as nat, labels: labels_view(self.labels@), out: self.ins@ }
    }
}

fn find_label(labels: &Vec<(String, u16)>, name: &String) -> (r: Option<u16>)
    ensures
        match lookup(labels_view(labels@), name@) {
            Some(v) => r == Some(v as u16) && v <= u16::MAX,
            None => r is None,
        },
{
    let ghost tbl = labels_view(labels@);
    let mut i: usize = labels.len();
    assert(tbl.take(i as int) =~= tbl);
    while i > 0
        invariant
            i <= labels@.len(),
            tbl == labels_view(labels@),
            lookup(tbl, name@) == lookup(tbl.take(i as int), name@),
        decreases i,
    {
        assert(tbl.take(i as int).drop_last() =~= tbl.take(i - 1));
        if labels[i - 1].0 == *name {
            return Some(labels[i - 1].1);
        }
        i = i - 1;
    }
    None
}

fn emit(props: &mut Props, a: u8, b: u8)
    ensures
        final(props).ins@ == old(props).ins@ + seq![a, b],
        final(props).pc == old(props).pc,
        final(props).labels == old(props).labels,
        final(props).line == old(props).line,
{
    props.ins.push(a);
    props.ins.push(b);
    assert(props.ins@ =~= old(props).ins@ + seq![a, b]);
}

fn interp_expr(props: &mut Props, expr: &Expr) -> (r: Result<(), InterpError>)
    requires
        2 <= old(props).pc,
        old(props).pc <= 65535,
    ensures
        match step(
            Gen { pc: (old(props).pc - 2) as nat, ..old(props).model() },
            expr.node@,
            old(props).line as nat,
        ) {
            Ok(g) => r is Ok && final(props).model() == g && final(props).line == old(props).line,
            Err((line, name)) => r matches Err(e) && e.line == line && e.label@ == name
                && *final(props) == *old(props),
        },
        expr.node is Clear ==> final(props).ins@ == old(props).ins@ + seq![0x00u8, 0xE0u8]
            && final(props).pc == old(props).pc && final(props).labels@ == old(props).labels@,
{
    match &expr.node {
        Expr_::Clear => {
            emit(props, 0x00, 0xE0);
        },
        Expr_::AssignRegisterRegister(r1, r2) => {
            emit(props, ((0x80 + *r1 as u32) % 256) as u8, ((*r2 as u32 * 16) % 256) as u8);
        },
        Expr_::AssignRegisterInteger(r, n) => {
            emit(props, ((0x60 + *r as u32) % 256) as u8, *n);
        },
        Expr_::AssignIRegisterInteger(nnn) => {
            emit(props, (0xD0 + (*nnn / 256) % 16) as u8, (*nnn % 256) as u8);
        },
        Expr_::AssignIRegisterRegisterSprite(r) => {
            emit(props, ((0xF0 + *r as u32) % 256) as u8, 0x29);
        },
        Expr_::DeclareLabel(id) => {
            let ghost before = props.labels@;
            props.labels.push((id.clone(), props.pc));
            assert(labels_view(props.labels@) =~= labels_view(before).push((id@, props.pc as nat)));
            props.pc = props.pc - 2;
        },
        Expr_::DrawIRegister(r1, r2, n) => {
            emit(props, ((0xD0 + *r1 as u32) % 256) as u8, ((*r2 as u32 * 16 + *n as u32) % 256) as u8);
        },
        Expr_::IncrementRegisterInteger(r, n) => {
            emit(props, ((0x70 + *r as u32) % 256) as u8, *n);
        },
        Expr_::GotoLabel(id) => {
            let target = match find_label(&props.labels, id) {
                Some(t) => t,
                None => {
                    return Err(InterpError { line: props.line, label: id.clone() });
                },
            };
            emit(props, (0x10 + (target / 256) % 16) as u8, ((target as u32 + 510) % 256) as u8);
        },
    }
    Ok(())
}

/// Once the generator has failed, later statements do not change the error.
pub proof fn lemma_run_error_stays(stmts: Seq<(Node, Span)>, i: nat, n: nat)
    requires
        i <= n <= stmts.len(),
        run(stmts, i) is Err,
    ensures
        run(stmts, n) == run(stmts, i),
    decreases n - i,
{
    if i < n {
        lemma_run_error_stays(stmts, i, (n - 1) as nat);
    }
}

/// An error names the position of a statement among the first `n`.
pub proof fn lemma_run_error_line(stmts: Seq<(Node, Span)>, n: nat)
    ensures
        run(stmts, n) matches Err((k, _)) ==> 1 <= k <= n && k <= stmts.len(),
    decreases n,
{
    if n > 0 && n <= stmts.len() {
        lemma_run_error_line(stmts, (n - 1) as nat);
    }
}

/// Compiles a program to its instruction bytes, two for each statement that
/// is not a label, in program order; fails on the first jump to a label not
/// declared before it.
pub fn interp(p: &Program) -> (r: Result<Vec<u8>, InterpError>)
    requires
        emitting_count(p@, p@.len()) <= MAX_INSTRUCTIONS,
    ensures
        match generate(p@) {
            Ok(g) => r matches Ok(out) && out@ == g.out,
            Err((line, name)) => r matches Err(e) && e.line == line && e.label@ == name,
        },
{
    let mut props = Props { pc: 0, ins: Vec::new(), labels: Vec::new(), line: 0 };
    assert(labels_view(props.labels@) =~= Seq::empty());
    assert(props.ins@ =~= Seq::<u8>::empty());
    let n = p.statements.len();
    let mut k: usize = 0;
    while k < n
        invariant
            n == p@.len(),
            emitting_count(p@, n as nat) <= MAX_INSTRUCTIONS,
            k <= n,
            props.line == k,
            run(p@, k as nat) == Ok::<Gen, (nat, Seq<char>)>(props.model()),
        decreases n - k,
    {
        proof {
            lemma_run_counts(p@, k as nat);
            lemma_emitting_count_grows(p@, k as nat, n as nat);
        }
        props.pc = props.pc + 2;
        props.line = props.line + 1;
        assert(p@[k as int].0 == p.statements@[k as int].node@);
        match interp_expr(&mut props, &p.statements[k]) {
            Ok(()) => {},
            Err(e) => {
                proof {
                    lemma_run_error_stays(p@, (k + 1) as nat, n as nat);
                }
                return Err(e);
            },
        }
        k = k + 1;
    }
    Ok(props.ins)
}

/// How many of the first `n` statements emit bytes: all but label
/// declarations.
pub open spec fn emitting_count(stmts: Seq<(Node, Span)>, n: nat) -> nat
    decreases n,
{
    if n == 0 || n > stmts.len() {
        0
    } else {
        emitting_count(stmts, (n - 1) as nat) + if stmts[n - 1].0 is DeclareLabel {
            0nat
        } else {
            1nat
        }
    }
}

/// Counting more statements never gives fewer instructions.
pub proof fn lemma_emitting_count_grows(stmts: Seq<(Node, Span)>, i: nat, n: nat)
    requires
        i <= n <= stmts.len(),
    ensures
        emitting_count(stmts, i) <= emitting_count(stmts, n),
    decreases n - i,
{
    if i < n {
        lemma_emitting_count_grows(stmts, i, (n - 1) as nat);
    }
}

/// The number of statements of `p` that are not label declarations.
pub fn instruction_count(p: &Program) -> (c: usize)
    ensures
        c == emitting_count(p@, p@.len()),
{
    let mut c: usize = 0;
    let mut k: usize = 0;
    while k < p.statements.len()
        invariant
            k <= p@.len(),
            c <= k,
            c == emitting_count(p@, k as nat),
        decreases p@.len() - k,
    {
        assert(p@[k as int].0 == p.statements@[k as int].node@);
        if let Expr_::DeclareLabel(_) = &p.statements[k].node {
        } else {
            c = c + 1;
        }
        k = k + 1;
    }
    c
}

/// The two bytes that statement `i` occupies in the compiled output.
pub open spec fn slot(stmts: Seq<(Node, Span)>, i: nat) -> Seq<u8> {
    let at = 2 * emitting_count(stmts, i);
    generate(stmts)->Ok_0.out.subrange(at as int, at + 2int)
}

/// After `n` statements the program counter is two bytes for each statement
/// that emits, and so is the length of the output.
pub proof fn lemma_run_counts(stmts: Seq<(Node, Span)>, n: nat)
    requires
        n <= stmts.len(),
    ensures
        run(stmts, n) matches Ok(g) ==> g.pc == 2 * emitting_count(stmts, n) && g.out.len()
            == g.pc,
    decreases n,
{
    if n > 0 {
        lemma_run_counts(stmts, (n - 1) as nat);
    }
}

/// A run that succeeds succeeded on every prefix, and its output extends
/// the prefix's output.
pub proof fn lemma_run_prefix(stmts: Seq<(Node, Span)>, i: nat, n: nat)
    requires
        i <= n <= stmts.len(),
        run(stmts, n) is Ok,
    ensures
        run(stmts, i) is Ok,
        run(stmts, i)->Ok_0.out.len() <= run(stmts, n)->Ok_0.out.len(),
        run(stmts, n)->Ok_0.out.subrange(0, run(stmts, i)->Ok_0.out.len() as int) == run(
            stmts,
            i,
        )->Ok_0.out,
    decreases n - i,
{
    if i < n {
        lemma_run_prefix(stmts, i, (n - 1) as nat);
        let a = run(stmts, i)->Ok_0.out;
        let b = run(stmts, (n - 1) as nat)->Ok_0.out;
        let c = run(stmts, n)->Ok_0.out;
        assert(c.subrange(0, b.len() as int) =~= b);
        assert(c.subrange(0, a.len() as int) =~= b.subrange(0, a.len() as int));
    } else {
        let a = run(stmts, i)->Ok_0.out;
        assert(a.subrange(0, a.len() as int) =~= a);
    }
}

/// The bytes of a statement that emits are the bytes its step appended.
pub proof fn lemma_slot_is_step(stmts: Seq<(Node, Span)>, i: nat)
    requires
        i < stmts.len(),
        generate(stmts) is Ok,
        !(stmts[i as int].0 is DeclareLabel),
    ensures
        run(stmts, i) is Ok,
        run(stmts, i + 1) is Ok,
        run(stmts, i + 1)->Ok_0.out == run(stmts, i)->Ok_0.out + slot(stmts, i),
        !(stmts[i as int].0 is GotoLabel) ==> slot(stmts, i) == encode_fixed(stmts[i as int].0),
{
    lemma_run_prefix(stmts, i + 1, stmts.len());
    lemma_run_prefix(stmts, i, i + 1);
    lemma_run_counts(stmts, i);
    lemma_run_counts(stmts, i + 1);
    let a = run(stmts, i)->Ok_0.out;
    let b = run(stmts, i + 1)->Ok_0.out;
    let c = generate(stmts)->Ok_0.out;
    assert(b.len() == a.len() + 2);
    assert(c.subrange(0, b.len() as int) == b);
    assert forall|k: int| 0 <= k < 2 implies #[trigger] slot(stmts, i)[k] == b[a.len() + k] by {
        assert(c.subrange(0, b.len() as int)[a.len() + k] == c[a.len() + k]);
    }
    assert(slot(stmts, i) =~= b.subrange(a.len() as int, a.len() + 2int));
    assert(b =~= a + slot(stmts, i));
}

/// A program that compiles yields exactly two bytes for each statement that
/// is not a label declaration.
pub proof fn law_output_length(stmts: Seq<(Node, Span)>)
    ensures
        generate(stmts) matches Ok(g) ==> g.out.len() == 2 * emitting_count(stmts, stmts.len()),
{
    lemma_run_counts(stmts, stmts.len());
}

/// `clear` emits 0x00 0xE0 wherever it stands.
pub proof fn law_clear_bytes(stmts: Seq<(Node, Span)>, i: nat)
    requires
        i < stmts.len(),
        generate(stmts) is Ok,
        stmts[i as int].0 is Clear,
    ensures
        slot(stmts, i) == seq![0x00u8, 0xE0u8],
{
    lemma_slot_is_step(stmts, i);
}

/// `v<r1> = v<r2>` emits 0x80 + r1, then r2 shifted left by four bits.
pub proof fn law_register_copy_bytes(stmts: Seq<(Node, Span)>, i: nat, r1: u8, r2: u8)
    requires
        i < stmts.len(),
        generate(stmts) is Ok,
        stmts[i as int].0 == Node::AssignRegisterRegister(r1, r2),
        r1 < 16,
        r2 < 16,
    ensures
        slot(stmts, i) == seq![(0x80 + r1) as u8, (r2 * 16) as u8],
{
    lemma_slot_is_step(stmts, i);
}

/// `v<r> = <n>` emits 0x60 + r, then n.
pub proof fn law_register_load_bytes(stmts: Seq<(Node, Span)>, i: nat, r: u8, n: u8)
    requires
        i < stmts.len(),
        generate(stmts) is Ok,
        stmts[i as int].0 == Node::AssignRegisterInteger(r, n),
        r < 16,
    ensures
        slot(stmts, i) == seq![(0x60 + r) as u8, n],
{
    lemma_slot_is_step(stmts, i);
}

/// `v<r> += <n>` emits 0x70 + r, then n.
pub proof fn law_register_add_bytes(stmts: Seq<(Node, Span)>, i: nat, r: u8, n: u8)
    requires
        i < stmts.len(),
        generate(stmts) is Ok,
        stmts[i as int].0 == Node::IncrementRegisterInteger(r, n),
        r < 16,
    ensures
        slot(stmts, i) == seq![(0x70 + r) as u8, n],
{
    lemma_slot_is_step(stmts, i);
}

/// A label declaration emits nothing and leaves the program counter where
/// it was; the label names the address of the slot that comes next.
pub proof fn law_label_emits_nothing(stmts: Seq<(Node, Span)>, i: nat, id: Seq<char>)
    requires
        i < stmts.len(),
        run(stmts, i) is Ok,
        stmts[i as int].0 == Node::DeclareLabel(id),
    ensures
        run(stmts, i + 1) is Ok,
        run(stmts, i + 1)->Ok_0.out == run(stmts, i)->Ok_0.out,
        run(stmts, i + 1)->Ok_0.pc == run(stmts, i)->Ok_0.pc,
        lookup(run(stmts, i + 1)->Ok_0.labels, id) == Some(run(stmts, i)->Ok_0.pc + 2),
{
    let g = run(stmts, i)->Ok_0;
    assert(g.labels.push((id, g.pc + 2)).last() == (id, g.pc + 2));
}

proof fn lemma_lookup_push(labels: Seq<(Seq<char>, nat)>, entry: (Seq<char>, nat), name: Seq<char>)
    ensures
        lookup(labels.push(entry), name) == if entry.0 == name {
            Some(entry.1)
        } else {
            lookup(labels, name)
        },
{
    assert(labels.push(entry).drop_last() =~= labels);
}

/// With no declaration of `id` among the first `k` statements, `id` is
/// not in the label table.
proof fn lemma_lookup_undeclared(stmts: Seq<(Node, Span)>, k: nat, id: Seq<char>)
    requires
        k <= stmts.len(),
        forall|m: int| 0 <= m < k ==> stmts[m].0 != Node::DeclareLabel(id),
    ensures
        run(stmts, k) matches Ok(g) ==> lookup(g.labels, id) is None,
    decreases k,
{
    if k > 0 {
        lemma_lookup_undeclared(stmts, (k - 1) as nat, id);
        if let Ok(g) = run(stmts, (k - 1) as nat) {
            if let Node::DeclareLabel(name) = stmts[k - 1].0 {
                lemma_lookup_push(g.labels, (name, g.pc + 2), id);
            }
        }
    }
}

/// After the declaration of `id` at `j`, and no other declaration of it up to
/// `k`, `id` names the address that was recorded at `j`.
proof fn lemma_lookup_declared(stmts: Seq<(Node, Span)>, j: nat, k: nat, id: Seq<char>)
    requires
        j < k <= stmts.len(),
        stmts[j as int].0 == Node::DeclareLabel(id),
        forall|m: int| j < m < k ==> stmts[m].0 != Node::DeclareLabel(id),
    ensures
        run(stmts, k) matches Ok(g) ==> run(stmts, j) is Ok && lookup(g.labels, id) == Some(
            run(stmts, j)->Ok_0.pc + 2,
        ),
    decreases k,
{
    if run(stmts, k) is Ok {
        lemma_run_prefix(stmts, j, k);
        lemma_run_prefix(stmts, (k - 1) as nat, k);
        let g = run(stmts, (k - 1) as nat)->Ok_0;
        if k - 1 == j {
            lemma_lookup_push(g.labels, (id, g.pc + 2), id);
        } else {
            lemma_lookup_declared(stmts, j, (k - 1) as nat, id);
            if let Node::DeclareLabel(name) = stmts[k - 1].0 {
                lemma_lookup_push(g.labels, (name, g.pc + 2), id);
            }
        }
    }
}

/// A jump to a label declared earlier goes to the address recorded at the
/// declaration: two bytes for each emitting statement before it, plus two.
pub proof fn law_goto_earlier_label(stmts: Seq<(Node, Span)>, j: nat, i: nat, id: Seq<char>)
    requires
        j < i < stmts.len(),
        stmts[j as int].0 == Node::DeclareLabel(id),
        stmts[i as int].0 == Node::GotoLabel(id),
        forall|m: int| j < m < i ==> stmts[m].0 != Node::DeclareLabel(id),
        run(stmts, i) is Ok,
    ensures
        run(stmts, i + 1) is Ok,
        run(stmts, i + 1)->Ok_0.out == run(stmts, i)->Ok_0.out + encode_goto(
            2 * emitting_count(stmts, j) + 2,
        ),
{
    lemma_lookup_declared(stmts, j, i, id);
    lemma_run_counts(stmts, j);
}

/// A jump to a label with no declaration before it (none at all, or only
/// later ones) makes compilation fail; where nothing failed before it, the
/// error names its line and the label.
pub proof fn law_goto_undeclared_label(stmts: Seq<(Node, Span)>, i: nat, id: Seq<char>)
    requires
        i < stmts.len(),
        stmts[i as int].0 == Node::GotoLabel(id),
        forall|m: int| 0 <= m < i ==> stmts[m].0 != Node::DeclareLabel(id),
    ensures
        generate(stmts) is Err,
        run(stmts, i) is Ok ==> generate(stmts) == Err::<Gen, (nat, Seq<char>)>((i + 1, id)),
{
    lemma_lookup_undeclared(stmts, i, id);
    if run(stmts, i) is Ok {
        lemma_run_error_stays(stmts, i + 1, stmts.len());
    } else {
        lemma_run_error_stays(stmts, i, stmts.len());
    }
}

proof fn lemma_run_ignores_spans(s1: Seq<(Node, Span)>, s2: Seq<(Node, Span)>, n: nat)
    requires
        s1.len() == s2.len(),
        forall|i: int| 0 <= i < s1.len() ==> #[trigger] s1[i].0 == s2[i].0,
    ensures
        run(s1, n) == run(s2, n),
    decreases n,
{
    if n > 0 {
        lemma_run_ignores_spans(s1, s2, (n - 1) as nat);
        if n <= s1.len() {
            assert(s1[n - 1].0 == s2[n - 1].0);
        }
    }
}

/// What a program compiles to depends on its statements alone, not on the
/// source spans they carry.
pub proof fn law_output_ignores_spans(s1: Seq<(Node, Span)>, s2: Seq<(Node, Span)>)
    requires
        s1.len() == s2.len(),
        forall|i: int| 0 <= i < s1.len() ==> #[trigger] s1[i].0 == s2[i].0,
    ensures
        generate(s1) == generate(s2),
{
    lemma_run_ignores_spans(s1, s2, s1.len());
}

} // verus!
