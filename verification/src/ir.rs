//! The intermediate representation the crate works on.
//!
//! A module is a list of functions, global variables and external
//! declarations; a function is an ordered list of basic blocks, the first
//! being the entry; a block is an ordered list of instructions and ends in
//! exactly one terminator.  Blocks carry a textual name used as the phi
//! join key.
//!
//! Besides its opcode and operands every instruction carries its printed
//! form, produced by the external printer that loads the module.  The
//! binding surface this representation stands for does not expose
//! structured phi operands, so a phi's predecessor labels live only in the
//! printed form and are recovered from it by [`crate::navigator`].
//!
//! Names, labels and printed forms are byte strings.  Views map every type
//! onto sequences so that contracts can speak about them mathematically.

use vstd::prelude::*;

verus! {

/// Instruction opcodes.
///
/// The transformation passes recognise `Call`, `Load`, `Store`, `Alloca`,
/// `Phi` and `Br` (conditional or not); every other opcode passes through
/// unmodified.  The compare, or, add and pointer conversion opcodes appear
/// in generated bounds checks; `Other` stands for any opcode the passes
/// have no interest in.
#[derive(Clone, Copy, PartialEq, Eq, Structural, Debug)]
pub enum Opcode {
    Call,
    Load,
    Store,
    Alloca,
    Phi,
    Br,
    Ret,
    Unreachable,
    ICmpEq,
    ICmpSlt,
    ICmpSgt,
    Or,
    Add,
    PtrToInt,
    Other,
}

/// An instruction operand.
#[derive(Debug)]
pub enum Operand {
    /// A reference to a named SSA value (`%name`).
    Ssa(Vec<u8>),
    /// A reference to a named global value (`@name`).
    Global(Vec<u8>),
    /// An integer constant.
    ConstInt(u64),
    /// A constant pointer expression, carried by its printed form
    /// (a constant `getelementptr`).
    ConstGep(Vec<u8>),
    /// A basic-block label (a branch target).
    Label(Vec<u8>),
    /// The null pointer constant.
    Null,
}

/// The view of an [`Operand`].
#[verifier::ext_equal]
pub enum OpV {
    Ssa(Seq<u8>),
    Global(Seq<u8>),
    ConstInt(u64),
    ConstGep(Seq<u8>),
    Label(Seq<u8>),
    Null,
}

impl View for Operand {
    type V = OpV;

    open spec fn view(&self) -> OpV {
        match self {
            Operand::Ssa(n) => OpV::Ssa(n@),
            Operand::Global(n) => OpV::Global(n@),
            Operand::ConstInt(k) => OpV::ConstInt(*k),
            Operand::ConstGep(t) => OpV::ConstGep(t@),
            Operand::Label(n) => OpV::Label(n@),
            Operand::Null => OpV::Null,
        }
    }
}

/// An instruction: an opcode, the name of the value it produces (if any),
/// typed operands, the access width in bytes for loads and stores, the
/// type token of the produced value, and the printed form.
pub struct Instruction {
    pub opcode: Opcode,
    pub dest: Option<Vec<u8>>,
    pub operands: Vec<Operand>,
    pub width: Option<u64>,
    pub ty: Vec<u8>,
    pub text: Vec<u8>,
}

/// The view of an [`Instruction`].
#[verifier::ext_equal]
pub struct InstrV {
    pub opcode: Opcode,
    pub dest: Option<Seq<u8>>,
    pub operands: Seq<OpV>,
    pub width: Option<u64>,
    pub ty: Seq<u8>,
    pub text: Seq<u8>,
}

impl View for Instruction {
    type V = InstrV;

    open spec fn view(&self) -> InstrV {
        InstrV {
            opcode: self.opcode,
            dest: match &self.dest {
                Some(d) => Some(d@),
                None => None,
            },
            operands: self.operands@.map_values(|o: Operand| o@),
            width: self.width,
            ty: self.ty@,
            text: self.text@,
        }
    }
}

/// A basic block: a name and an ordered list of instructions.
pub struct Block {
    pub name: Vec<u8>,
    pub instrs: Vec<Instruction>,
}

/// The view of a [`Block`].
#[verifier::ext_equal]
pub struct BlockV {
    pub name: Seq<u8>,
    pub instrs: Seq<InstrV>,
}

impl View for Block {
    type V = BlockV;

    open spec fn view(&self) -> BlockV {
        BlockV { name: self.name@, instrs: self.instrs@.map_values(|i: Instruction| i@) }
    }
}

/// A function: a name and an ordered list of blocks, the first being the
/// entry.
pub struct IrFunction {
    pub name: Vec<u8>,
    pub blocks: Vec<Block>,
}

/// The view of an [`IrFunction`].
#[verifier::ext_equal]
pub struct FunV {
    pub name: Seq<u8>,
    pub blocks: Seq<BlockV>,
}

impl View for IrFunction {
    type V = FunV;

    open spec fn view(&self) -> FunV {
        FunV { name: self.name@, blocks: self.blocks@.map_values(|b: Block| b@) }
    }
}

/// What a module-scope global variable is initialised to.
#[derive(Clone, Copy, PartialEq, Eq, Structural, Debug)]
pub enum GlobalInit {
    /// The null byte pointer.
    NullPtr,
    /// A 64-bit integer value.
    IntVal(u64),
    /// Anything else (an array body, say); the passes never read it.
    Opaque,
}

/// A module-scope global variable.
pub struct GlobalVar {
    pub name: Vec<u8>,
    pub init: GlobalInit,
}

/// The view of a [`GlobalVar`].
#[verifier::ext_equal]
pub struct GlobalV {
    pub name: Seq<u8>,
    pub init: GlobalInit,
}

impl View for GlobalVar {
    type V = GlobalV;

    open spec fn view(&self) -> GlobalV {
        GlobalV { name: self.name@, init: self.init }
    }
}

/// A module: functions, globals, and names of declared external functions.
pub struct IrModule {
    pub functions: Vec<IrFunction>,
    pub globals: Vec<GlobalVar>,
    pub decls: Vec<Vec<u8>>,
}

/// The view of an [`IrModule`].
#[verifier::ext_equal]
pub struct ModuleV {
    pub functions: Seq<FunV>,
    pub globals: Seq<GlobalV>,
    pub decls: Seq<Seq<u8>>,
}

impl View for IrModule {
    type V = ModuleV;

    open spec fn view(&self) -> ModuleV {
        ModuleV {
            functions: self.functions@.map_values(|f: IrFunction| f@),
            globals: self.globals@.map_values(|g: GlobalVar| g@),
            decls: self.decls@.map_values(|d: Vec<u8>| d@),
        }
    }
}

/// The views of a list of instructions.
pub open spec fn instrs_view(s: Seq<Instruction>) -> Seq<InstrV> {
    s.map_values(|i: Instruction| i@)
}

/// The views of a list of blocks.
pub open spec fn blocks_view(s: Seq<Block>) -> Seq<BlockV> {
    s.map_values(|b: Block| b@)
}

/// The views of a list with an instruction appended.
pub broadcast proof fn lemma_instrs_view_push(s: Seq<Instruction>, x: Instruction)
    ensures
        #[trigger] instrs_view(s.push(x)) == instrs_view(s).push(x@),
{
    assert(instrs_view(s.push(x)) =~= instrs_view(s).push(x@));
}

/// The views of a list with a block appended.
pub broadcast proof fn lemma_blocks_view_push(s: Seq<Block>, x: Block)
    ensures
        #[trigger] blocks_view(s.push(x)) == blocks_view(s).push(x@),
{
    assert(blocks_view(s.push(x)) =~= blocks_view(s).push(x@));
}

/// Taking the front instruction off a list whose views are a suffix of
/// `orig` yields the element at the suffix's start and the next suffix.
pub proof fn lemma_instrs_view_remove_front(pre: Seq<Instruction>, orig: Seq<InstrV>, consumed: int)
    requires
        pre.len() > 0,
        0 <= consumed,
        consumed + pre.len() == orig.len(),
        instrs_view(pre) == orig.skip(consumed),
    ensures
        pre[0]@ == orig[consumed],
        instrs_view(pre.remove(0)) =~= orig.skip(consumed + 1),
{
    assert(instrs_view(pre)[0] == pre[0]@);
    assert(orig.skip(consumed)[0] == orig[consumed]);
    assert forall|j: int| 0 <= j < pre.len() - 1 implies #[trigger] instrs_view(pre.remove(0))[j]
        == orig.skip(consumed + 1)[j] by {
        assert(instrs_view(pre.remove(0))[j] == pre.remove(0)[j]@);
        assert(pre.remove(0)[j] == pre[j + 1]);
        assert(instrs_view(pre)[j + 1] == pre[j + 1]@);
        assert(orig.skip(consumed)[j + 1] == orig[consumed + j + 1]);
        assert(orig.skip(consumed + 1)[j] == orig[consumed + j + 1]);
    }
}

/// The views of a list of operands.
pub open spec fn ops_view(s: Seq<Operand>) -> Seq<OpV> {
    s.map_values(|o: Operand| o@)
}

/// The views of a list with an operand appended.
pub broadcast proof fn lemma_ops_view_push(s: Seq<Operand>, x: Operand)
    ensures
        #[trigger] ops_view(s.push(x)) == ops_view(s).push(x@),
{
    assert(ops_view(s.push(x)) =~= ops_view(s).push(x@));
}

/// Taking the front operand off a list whose views are a suffix of
/// `orig` yields the element at the suffix's start and the next suffix.
pub proof fn lemma_ops_view_remove_front(pre: Seq<Operand>, orig: Seq<OpV>, consumed: int)
    requires
        pre.len() > 0,
        0 <= consumed,
        consumed + pre.len() == orig.len(),
        ops_view(pre) == orig.skip(consumed),
    ensures
        pre[0]@ == orig[consumed],
        ops_view(pre.remove(0)) =~= orig.skip(consumed + 1),
{
    assert(ops_view(pre)[0] == pre[0]@);
    assert(orig.skip(consumed)[0] == orig[consumed]);
    assert forall|j: int| 0 <= j < pre.len() - 1 implies #[trigger] ops_view(pre.remove(0))[j]
        == orig.skip(consumed + 1)[j] by {
        assert(ops_view(pre.remove(0))[j] == pre.remove(0)[j]@);
        assert(pre.remove(0)[j] == pre[j + 1]);
        assert(ops_view(pre)[j + 1] == pre[j + 1]@);
        assert(orig.skip(consumed)[j + 1] == orig[consumed + j + 1]);
        assert(orig.skip(consumed + 1)[j] == orig[consumed + j + 1]);
    }
}

/// Taking the front block off a list whose views are a suffix of `orig`
/// yields the element at the suffix's start and the next suffix.
pub proof fn lemma_blocks_view_remove_front(pre: Seq<Block>, orig: Seq<BlockV>, consumed: int)
    requires
        pre.len() > 0,
        0 <= consumed,
        consumed + pre.len() == orig.len(),
        blocks_view(pre) == orig.skip(consumed),
    ensures
        pre[0]@ == orig[consumed],
        blocks_view(pre.remove(0)) =~= orig.skip(consumed + 1),
{
    assert(blocks_view(pre)[0] == pre[0]@);
    assert(orig.skip(consumed)[0] == orig[consumed]);
    assert forall|j: int| 0 <= j < pre.len() - 1 implies #[trigger] blocks_view(pre.remove(0))[j]
        == orig.skip(consumed + 1)[j] by {
        assert(blocks_view(pre.remove(0))[j] == pre.remove(0)[j]@);
        assert(pre.remove(0)[j] == pre[j + 1]);
        assert(blocks_view(pre)[j + 1] == pre[j + 1]@);
        assert(orig.skip(consumed)[j + 1] == orig[consumed + j + 1]);
        assert(orig.skip(consumed + 1)[j] == orig[consumed + j + 1]);
    }
}

/// Whether an instruction is a terminator.
pub open spec fn is_terminator(i: InstrV) -> bool {
    i.opcode == Opcode::Br || i.opcode == Opcode::Ret || i.opcode == Opcode::Unreachable
}

/// A well-formed block is nonempty and ends in its only terminator.
pub open spec fn wf_block(b: BlockV) -> bool {
    &&& b.instrs.len() > 0
    &&& is_terminator(b.instrs.last())
    &&& forall|k: int| 0 <= k < b.instrs.len() - 1 ==> !is_terminator(#[trigger] b.instrs[k])
}

/// A well-formed function has well-formed blocks with pairwise distinct
/// names.
pub open spec fn wf_function(f: FunV) -> bool {
    &&& forall|i: int| 0 <= i < f.blocks.len() ==> wf_block(#[trigger] f.blocks[i])
    &&& forall|i: int, j: int|
        0 <= i < j < f.blocks.len() ==> f.blocks[i].name != f.blocks[j].name
}

/// Whether the module holds a function of the given name.
pub open spec fn has_function(m: ModuleV, name: Seq<u8>) -> bool {
    exists|i: int| 0 <= i < m.functions.len() && (#[trigger] m.functions[i]).name == name
}

/// The position of the first function of the given name.
pub fn find_function(m: &IrModule, name: &Vec<u8>) -> (r: Option<usize>)
    ensures
        match r {
            Some(i) => i < m@.functions.len() && m@.functions[i as int].name == name@ && forall|
                j: int,
            | 0 <= j < i ==> (#[trigger] m@.functions[j]).name != name@,
            None => !has_function(m@, name@),
        },
{
    let mut i: usize = 0;
    while i < m.functions.len()
        invariant
            i <= m@.functions.len(),
            forall|j: int| 0 <= j < i ==> (#[trigger] m@.functions[j]).name != name@,
        decreases m@.functions.len() - i,
    {
        if crate::bytes::eq_bytes(&m.functions[i].name, name) {
            return Some(i);
        }
        i += 1;
    }
    None
}

/// Whether the module holds a global of the given name.
pub open spec fn has_global(m: ModuleV, name: Seq<u8>) -> bool {
    exists|i: int| 0 <= i < m.globals.len() && (#[trigger] m.globals[i]).name == name
}

/// The position of the first global of the given name.
pub fn find_global(m: &IrModule, name: &Vec<u8>) -> (r: Option<usize>)
    ensures
        match r {
            Some(i) => i < m@.globals.len() && m@.globals[i as int].name == name@,
            None => !has_global(m@, name@),
        },
{
    let mut i: usize = 0;
    while i < m.globals.len()
        invariant
            i <= m@.globals.len(),
            forall|j: int| 0 <= j < i ==> (#[trigger] m@.globals[j]).name != name@,
        decreases m@.globals.len() - i,
    {
        if crate::bytes::eq_bytes(&m.globals[i].name, name) {
            return Some(i);
        }
        i += 1;
    }
    None
}

/// Whether the module declares an external function of the given name.
pub open spec fn has_decl(m: ModuleV, name: Seq<u8>) -> bool {
    exists|i: int| 0 <= i < m.decls.len() && #[trigger] m.decls[i] == name
}

/// Whether the module declares an external function of the given name.
pub fn find_decl(m: &IrModule, name: &Vec<u8>) -> (r: bool)
    ensures
        r == has_decl(m@, name@),
{
    let mut i: usize = 0;
    while i < m.decls.len()
        invariant
            i <= m@.decls.len(),
            forall|j: int| 0 <= j < i ==> #[trigger] m@.decls[j] != name@,
        decreases m@.decls.len() - i,
    {
        if crate::bytes::eq_bytes(&m.decls[i], name) {
            proof {
                assert(m@.decls[i as int] == name@);
            }
            return true;
        }
        i += 1;
    }
    false
}

/// Whether the operands are the same value.
pub fn operand_eq(a: &Operand, b: &Operand) -> (r: bool)
    ensures
        r == (a@ == b@),
{
    match (a, b) {
        (Operand::Ssa(x), Operand::Ssa(y)) => crate::bytes::eq_bytes(x, y),
        (Operand::Global(x), Operand::Global(y)) => crate::bytes::eq_bytes(x, y),
        (Operand::ConstInt(x), Operand::ConstInt(y)) => x == y,
        (Operand::ConstGep(x), Operand::ConstGep(y)) => crate::bytes::eq_bytes(x, y),
        (Operand::Label(x), Operand::Label(y)) => crate::bytes::eq_bytes(x, y),
        (Operand::Null, Operand::Null) => true,
        _ => false,
    }
}

/// A fresh copy of an operand.
pub fn copy_operand(o: &Operand) -> (r: Operand)
    ensures
        r@ == o@,
{
    match o {
        Operand::Ssa(n) => Operand::Ssa(crate::bytes::copy_bytes(n)),
        Operand::Global(n) => Operand::Global(crate::bytes::copy_bytes(n)),
        Operand::ConstInt(k) => Operand::ConstInt(*k),
        Operand::ConstGep(t) => Operand::ConstGep(crate::bytes::copy_bytes(t)),
        Operand::Label(n) => Operand::Label(crate::bytes::copy_bytes(n)),
        Operand::Null => Operand::Null,
    }
}

/// Whether the operand denotes a pointer value.
pub open spec fn spec_is_pointer(o: OpV) -> bool {
    match o {
        OpV::Ssa(_) => true,
        OpV::Global(_) => true,
        OpV::ConstGep(_) => true,
        OpV::Null => true,
        _ => false,
    }
}

/// Whether the operand denotes a compile-time constant pointer.
pub open spec fn spec_is_const_pointer(o: OpV) -> bool {
    match o {
        OpV::Global(_) => true,
        OpV::ConstGep(_) => true,
        _ => false,
    }
}

/// The byte string `utx0`.
pub open spec fn spec_utx0() -> Seq<u8> {
    seq![117u8, 116u8, 120u8, 48u8]
}

/// The byte string `utx0`.
pub fn name_utx0() -> (r: Vec<u8>)
    ensures
        r@ == spec_utx0(),
{
    let mut r: Vec<u8> = Vec::new();
    r.push(117);
    r.push(116);
    r.push(120);
    r.push(48);
    proof {
        assert(r@ =~= spec_utx0());
    }
    r
}

/// The byte string `utx1`.
pub open spec fn spec_utx1() -> Seq<u8> {
    seq![117u8, 116u8, 120u8, 49u8]
}

/// The byte string `utx1`.
pub fn name_utx1() -> (r: Vec<u8>)
    ensures
        r@ == spec_utx1(),
{
    let mut r: Vec<u8> = Vec::new();
    r.push(117);
    r.push(116);
    r.push(120);
    r.push(49);
    proof {
        assert(r@ =~= spec_utx1());
    }
    r
}

/// The byte string `stack_`, the name prefix of renamed stack slots.
pub open spec fn spec_stack_prefix() -> Seq<u8> {
    seq![115u8, 116u8, 97u8, 99u8, 107u8, 95u8]
}

/// The byte string `stack_`.
pub fn name_stack_prefix() -> (r: Vec<u8>)
    ensures
        r@ == spec_stack_prefix(),
{
    let mut r: Vec<u8> = Vec::new();
    r.push(115);
    r.push(116);
    r.push(97);
    r.push(99);
    r.push(107);
    r.push(95);
    proof {
        assert(r@ =~= spec_stack_prefix());
    }
    r
}

/// The byte string `bb`, the prefix of renamed block names.
pub open spec fn spec_bb() -> Seq<u8> {
    seq![98u8, 98u8]
}

/// The byte string `bb`.
pub fn name_bb() -> (r: Vec<u8>)
    ensures
        r@ == spec_bb(),
{
    let mut r: Vec<u8> = Vec::new();
    r.push(98);
    r.push(98);
    proof {
        assert(r@ =~= spec_bb());
    }
    r
}

/// The byte string `load`, the prefix of blocks split off before a load.
pub open spec fn spec_load() -> Seq<u8> {
    seq![108u8, 111u8, 97u8, 100u8]
}

/// The byte string `load`.
pub fn name_load() -> (r: Vec<u8>)
    ensures
        r@ == spec_load(),
{
    let mut r: Vec<u8> = Vec::new();
    r.push(108);
    r.push(111);
    r.push(97);
    r.push(100);
    proof {
        assert(r@ =~= spec_load());
    }
    r
}

/// The byte string `store`, the prefix of blocks split off before a store.
pub open spec fn spec_store() -> Seq<u8> {
    seq![115u8, 116u8, 111u8, 114u8, 101u8]
}

/// The byte string `store`.
pub fn name_store() -> (r: Vec<u8>)
    ensures
        r@ == spec_store(),
{
    let mut r: Vec<u8> = Vec::new();
    r.push(115);
    r.push(116);
    r.push(111);
    r.push(114);
    r.push(101);
    proof {
        assert(r@ =~= spec_store());
    }
    r
}

/// The byte string `abort`.
pub open spec fn spec_abort() -> Seq<u8> {
    seq![97u8, 98u8, 111u8, 114u8, 116u8]
}

/// The byte string `abort`.
pub fn name_abort() -> (r: Vec<u8>)
    ensures
        r@ == spec_abort(),
{
    let mut r: Vec<u8> = Vec::new();
    r.push(97);
    r.push(98);
    r.push(111);
    r.push(114);
    r.push(116);
    proof {
        assert(r@ =~= spec_abort());
    }
    r
}

/// The byte string `protected_ptr`, the global holding the window base.
pub open spec fn spec_protected_ptr() -> Seq<u8> {
    seq![
        112u8,
        114u8,
        111u8,
        116u8,
        101u8,
        99u8,
        116u8,
        101u8,
        100u8,
        95u8,
        112u8,
        116u8,
        114u8,
    ]
}

/// The byte string `protected_ptr`.
pub fn name_protected_ptr() -> (r: Vec<u8>)
    ensures
        r@ == spec_protected_ptr(),
{
    let mut r: Vec<u8> = Vec::new();
    r.push(112);
    r.push(114);
    r.push(111);
    r.push(116);
    r.push(101);
    r.push(99);
    r.push(116);
    r.push(101);
    r.push(100);
    r.push(95);
    r.push(112);
    r.push(116);
    r.push(114);
    proof {
        assert(r@ =~= spec_protected_ptr());
    }
    r
}

/// The byte string `protected_offset`, the global holding the window length.
pub open spec fn spec_protected_offset() -> Seq<u8> {
    seq![
        112u8,
        114u8,
        111u8,
        116u8,
        101u8,
        99u8,
        116u8,
        101u8,
        100u8,
        95u8,
        111u8,
        102u8,
        102u8,
        115u8,
        101u8,
        116u8,
    ]
}

/// The byte string `protected_offset`.
pub fn name_protected_offset() -> (r: Vec<u8>)
    ensures
        r@ == spec_protected_offset(),
{
    let mut r: Vec<u8> = Vec::new();
    r.push(112);
    r.push(114);
    r.push(111);
    r.push(116);
    r.push(101);
    r.push(99);
    r.push(116);
    r.push(101);
    r.push(100);
    r.push(95);
    r.push(111);
    r.push(102);
    r.push(102);
    r.push(115);
    r.push(101);
    r.push(116);
    proof {
        assert(r@ =~= spec_protected_offset());
    }
    r
}

} // verus!
