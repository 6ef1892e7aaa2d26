//! The vocabulary of analysed programs: procedures, variables, types, fields
//! and source locations.
//!
//! These types hold what the analysis reads of a program. They are plain
//! values: copying one gives an equal value, and a value is ordered by its
//! [`Keyed::key`].

use crate::key::{number_key, option_key, push_number, push_option_key, text_key, Key, KeyV, Keyed};
use crate::list::Twin;
use crate::ordered::Dup;
use crate::text::{int_text, push_int};
use vstd::prelude::*;

verus! {

/// An exact copy of an optional value.
pub fn clone_option<T: Twin>(x: &Option<T>) -> (r: Option<T>)
    ensures
        r == *x,
{
    match x {
        None => None,
        Some(v) => Some(v.twin()),
    }
}

impl Twin for String {
    fn twin(&self) -> (r: Self) {
        self.clone()
    }
}

impl Twin for usize {
    fn twin(&self) -> (r: Self) {
        *self
    }
}

/// A source file.
#[derive(Debug, PartialEq, Eq)]
pub enum SourceFile {
    /// No file at all.
    Invalid,
    /// The file at a path.
    Path(String),
}

/// A position in a source file.
#[derive(Debug, PartialEq, Eq)]
pub struct Location {
    pub file: SourceFile,
    pub line: i32,
    pub col: i32,
    pub macro_file_opt: Option<SourceFile>,
    pub macro_line: i32,
}

/// A qualified C or C++ name.
#[derive(Debug, PartialEq, Eq)]
pub struct QualifiedCppName {
    pub name: String,
}

/// The name of a Hack class.
#[derive(Debug, PartialEq, Eq, Hash)]
pub struct HackClassName(pub String);

/// The name of a Java class.
#[derive(Debug, PartialEq, Eq, Hash)]
pub struct JavaClassName(pub String);

/// The name of a Python class.
#[derive(Debug, PartialEq, Eq)]
pub struct PythonClassName(pub String);

/// The name of a declared type.
#[derive(Debug, PartialEq, Eq)]
pub enum TypeName {
    CStruct(QualifiedCppName),
    CUnion(QualifiedCppName),
    CppClass(QualifiedCppName),
    CFunction(CProcname),
    JavaClass(JavaClassName),
    HackClass(HackClassName),
    PythonClass(PythonClassName),
}

/// The shape of a type.
#[derive(Debug, PartialEq, Eq)]
pub enum TypeDesc {
    Tint,
    Tfloat,
    Tvoid,
    Tptr(Box<Typ>),
    Tstruct(TypeName),
    Tarray(Box<Typ>),
}

/// A type.
#[derive(Debug, PartialEq, Eq)]
pub struct Typ {
    pub desc: Box<TypeDesc>,
}

/// A field of a declared type.
#[derive(Debug, PartialEq, Eq)]
pub struct Fieldname {
    pub class_name: TypeName,
    pub field_name: String,
}

/// The name of a C function.
#[derive(Debug, PartialEq, Eq, Hash)]
pub struct CProcname {
    pub name: String,
}

/// The name of a Java method.
#[derive(Debug, PartialEq, Eq, Hash)]
pub struct JavaProcname {
    pub class_name: JavaClassName,
    pub method_name: String,
}

/// The name of a Hack function or method.
#[derive(Debug, PartialEq, Eq, Hash)]
pub struct HackProcname {
    pub class_name: Option<HackClassName>,
    pub function_name: String,
    pub arity: Option<usize>,
}

/// The name of a Python function or method.
#[derive(Debug, PartialEq, Eq, Hash)]
pub struct PythonProcname {
    pub class_name: Option<String>,
    pub function_name: String,
}

/// The name of a procedure.
#[derive(Debug, PartialEq, Eq, Hash)]
pub enum Procname {
    C(CProcname),
    Java(JavaProcname),
    Hack(HackProcname),
    Python(PythonProcname),
}

/// The name of a program variable.
#[derive(Debug, PartialEq, Eq)]
pub struct Mangled {
    pub name: String,
}

/// Where a program variable lives.
#[derive(Debug, PartialEq, Eq)]
pub enum PvarKind {
    /// A local variable or formal of a procedure.
    Local { proc_name: Procname },
    /// A variable of a called procedure.
    Callee(Procname),
    /// The entry value of a variable of a procedure.
    Seed(Procname),
    /// A global variable, with the procedure that initialises it, if there is one.
    Global { initializer: Option<Procname> },
}

/// A program variable.
#[derive(Debug, PartialEq, Eq)]
pub struct Pvar {
    pub name: Mangled,
    pub kind: PvarKind,
}

/// The name of a logical identifier.
#[derive(Debug, PartialEq, Eq)]
pub struct IdentName {
    pub name: String,
}

/// What a logical identifier is used for.
#[derive(Clone, Copy, Debug, PartialEq, Eq, Structural)]
pub enum IdentKind {
    Normal,
    Unused,
}

/// A logical identifier.
#[derive(Debug, PartialEq, Eq)]
pub struct Ident {
    pub kind: IdentKind,
    pub name: IdentName,
    pub stamp: i32,
}

/// A variable: of the program, or a logical identifier.
#[derive(Debug, PartialEq, Eq)]
pub enum Var {
    ProgramVar(Box<Pvar>),
    LogicalVar(Ident),
}

/// An integer literal.
#[derive(Clone, Copy, Debug, PartialEq, Eq, Structural)]
pub struct IntLit {
    pub value: i64,
}

/// An expression.
#[derive(Debug, PartialEq, Eq)]
pub enum Exp {
    /// A logical identifier.
    Var(Ident),
    /// The address of a program variable.
    Lvar(Pvar),
    /// A field of what an expression points to.
    Lfield(Box<Exp>, Fieldname),
    /// An element of an array: the array, then the index.
    Lindex(Box<Exp>, Box<Exp>),
    Cast(Typ, Box<Exp>),
    /// An integer constant.
    Int(IntLit),
    /// A procedure.
    Cfun(Procname),
}

/// How a procedure is called.
#[derive(Clone, Copy, Debug, PartialEq, Eq, Structural)]
pub struct CallFlags {
    /// The callee is looked up in the dynamic type of the receiver.
    pub cf_virtual: bool,
}

/// An instruction.
#[derive(Debug, PartialEq, Eq)]
pub enum Instr {
    Load { id: Ident, e: Exp, typ: Typ, loc: Location },
    Store { e1: Exp, e2: Exp, typ: Typ, loc: Location },
    Prune { cond: Exp, taken: bool, loc: Location },
    Call {
        ret_id: Ident,
        ret_typ: Typ,
        fun_exp: Exp,
        args: Vec<(Exp, Typ)>,
        loc: Location,
        flags: CallFlags,
    },
    Metadata(Location),
}

/// A node of a control-flow graph.
#[derive(Debug, PartialEq, Eq)]
pub struct Node {
    pub id: usize,
    pub loc: Location,
    pub instrs: Vec<Instr>,
}

impl Keyed for usize {
    open spec fn key(&self) -> KeyV {
        number_key(*self as int)
    }

    fn push_key(&self, out: &mut Key) {
        push_number(out, *self as i128);
    }
}

impl Keyed for IntLit {
    open spec fn key(&self) -> KeyV {
        number_key(self.value as int)
    }

    fn push_key(&self, out: &mut Key) {
        push_number(out, self.value as i128);
    }
}

impl Keyed for IdentKind {
    open spec fn key(&self) -> KeyV {
        match self {
            IdentKind::Normal => number_key(0),
            IdentKind::Unused => number_key(1),
        }
    }

    fn push_key(&self, out: &mut Key) {
        match self {
            IdentKind::Normal => push_number(out, 0),
            IdentKind::Unused => push_number(out, 1),
        }
    }
}


impl Clone for SourceFile {
    fn clone(&self) -> (r: Self)
        ensures
            r == *self,
    {
        match self {
            SourceFile::Invalid => SourceFile::Invalid,
            SourceFile::Path(p) => SourceFile::Path(p.clone()),
        }
    }
}

impl Twin for SourceFile {
    fn twin(&self) -> (r: Self) {
        self.clone()
    }
}

impl Keyed for SourceFile {
    open spec fn key(&self) -> KeyV {
        match self {
            SourceFile::Invalid => number_key(0),
            SourceFile::Path(p) => number_key(1) + text_key(p@),
        }
    }

    fn push_key(&self, out: &mut Key) {
        let ghost before = out@;
        match self {
            SourceFile::Invalid => {
                push_number(out, 0);
            },
            SourceFile::Path(p) => {
                push_number(out, 1);
                p.push_key(out);
                assert(
                    before + number_key(1) + text_key(p@)
                        =~= before + (number_key(1) + text_key(p@))
                );
            },
        }
    }
}

impl Clone for Location {
    fn clone(&self) -> (r: Self)
        ensures
            r == *self,
    {
        Location {
            file: self.file.clone(),
            line: self.line,
            col: self.col,
            macro_file_opt: clone_option(&self.macro_file_opt),
            macro_line: self.macro_line,
        }
    }
}

impl Twin for Location {
    fn twin(&self) -> (r: Self) {
        self.clone()
    }
}

impl Keyed for Location {
    open spec fn key(&self) -> KeyV {
        self.file.key()
            + number_key(self.line as int)
            + number_key(self.col as int)
            + option_key(self.macro_file_opt)
            + number_key(self.macro_line as int)
    }

    fn push_key(&self, out: &mut Key) {
        let ghost before = out@;
        self.file.push_key(out);
        push_number(out, self.line as i128);
        push_number(out, self.col as i128);
        push_option_key(out, &self.macro_file_opt);
        push_number(out, self.macro_line as i128);
        assert(
            before
                + self.file.key()
                + number_key(self.line as int)
                + number_key(self.col as int)
                + option_key(self.macro_file_opt)
                + number_key(self.macro_line as int)
                =~= before
                    + (
                        self.file.key()
                            + number_key(self.line as int)
                            + number_key(self.col as int)
                            + option_key(self.macro_file_opt)
                            + number_key(self.macro_line as int)
                    )
        );
    }
}

impl View for Location {
    type V = Location;

    open spec fn view(&self) -> Location {
        *self
    }
}

impl Dup for Location {
    fn dup(&self) -> (r: Self) {
        self.clone()
    }
}

impl Clone for HackClassName {
    fn clone(&self) -> (r: Self)
        ensures
            r == *self,
    {
        HackClassName(self.0.clone())
    }
}

impl Twin for HackClassName {
    fn twin(&self) -> (r: Self) {
        self.clone()
    }
}

impl Keyed for HackClassName {
    open spec fn key(&self) -> KeyV {
        text_key(self.0@)
    }

    fn push_key(&self, out: &mut Key) {
        let ghost before = out@;
        self.0.push_key(out);
    }
}

impl Clone for JavaClassName {
    fn clone(&self) -> (r: Self)
        ensures
            r == *self,
    {
        JavaClassName(self.0.clone())
    }
}

impl Twin for JavaClassName {
    fn twin(&self) -> (r: Self) {
        self.clone()
    }
}

impl Keyed for JavaClassName {
    open spec fn key(&self) -> KeyV {
        text_key(self.0@)
    }

    fn push_key(&self, out: &mut Key) {
        let ghost before = out@;
        self.0.push_key(out);
    }
}

impl Clone for PythonClassName {
    fn clone(&self) -> (r: Self)
        ensures
            r == *self,
    {
        PythonClassName(self.0.clone())
    }
}

impl Twin for PythonClassName {
    fn twin(&self) -> (r: Self) {
        self.clone()
    }
}

impl Keyed for PythonClassName {
    open spec fn key(&self) -> KeyV {
        text_key(self.0@)
    }

    fn push_key(&self, out: &mut Key) {
        let ghost before = out@;
        self.0.push_key(out);
    }
}

impl Clone for QualifiedCppName {
    fn clone(&self) -> (r: Self)
        ensures
            r == *self,
    {
        QualifiedCppName { name: self.name.clone() }
    }
}

impl Twin for QualifiedCppName {
    fn twin(&self) -> (r: Self) {
        self.clone()
    }
}

impl Keyed for QualifiedCppName {
    open spec fn key(&self) -> KeyV {
        text_key(self.name@)
    }

    fn push_key(&self, out: &mut Key) {
        let ghost before = out@;
        self.name.push_key(out);
    }
}

impl Clone for CProcname {
    fn clone(&self) -> (r: Self)
        ensures
            r == *self,
    {
        CProcname { name: self.name.clone() }
    }
}

impl Twin for CProcname {
    fn twin(&self) -> (r: Self) {
        self.clone()
    }
}

impl Keyed for CProcname {
    open spec fn key(&self) -> KeyV {
        text_key(self.name@)
    }

    fn push_key(&self, out: &mut Key) {
        let ghost before = out@;
        self.name.push_key(out);
    }
}

impl Clone for Mangled {
    fn clone(&self) -> (r: Self)
        ensures
            r == *self,
    {
        Mangled { name: self.name.clone() }
    }
}

impl Twin for Mangled {
    fn twin(&self) -> (r: Self) {
        self.clone()
    }
}

impl Keyed for Mangled {
    open spec fn key(&self) -> KeyV {
        text_key(self.name@)
    }

    fn push_key(&self, out: &mut Key) {
        let ghost before = out@;
        self.name.push_key(out);
    }
}

impl Clone for IdentName {
    fn clone(&self) -> (r: Self)
        ensures
            r == *self,
    {
        IdentName { name: self.name.clone() }
    }
}

impl Twin for IdentName {
    fn twin(&self) -> (r: Self) {
        self.clone()
    }
}

impl Keyed for IdentName {
    open spec fn key(&self) -> KeyV {
        text_key(self.name@)
    }

    fn push_key(&self, out: &mut Key) {
        let ghost before = out@;
        self.name.push_key(out);
    }
}

impl Clone for JavaProcname {
    fn clone(&self) -> (r: Self)
        ensures
            r == *self,
    {
        JavaProcname { class_name: self.class_name.clone(), method_name: self.method_name.clone() }
    }
}

impl Twin for JavaProcname {
    fn twin(&self) -> (r: Self) {
        self.clone()
    }
}

impl Keyed for JavaProcname {
    open spec fn key(&self) -> KeyV {
        self.class_name.key() + text_key(self.method_name@)
    }

    fn push_key(&self, out: &mut Key) {
        let ghost before = out@;
        self.class_name.push_key(out);
        self.method_name.push_key(out);
        assert(
            before + self.class_name.key() + text_key(self.method_name@)
                =~= before + (self.class_name.key() + text_key(self.method_name@))
        );
    }
}

impl Clone for HackProcname {
    fn clone(&self) -> (r: Self)
        ensures
            r == *self,
    {
        HackProcname {
            class_name: clone_option(&self.class_name),
            function_name: self.function_name.clone(),
            arity: clone_option(&self.arity),
        }
    }
}

impl Twin for HackProcname {
    fn twin(&self) -> (r: Self) {
        self.clone()
    }
}

impl Keyed for HackProcname {
    open spec fn key(&self) -> KeyV {
        option_key(self.class_name) + text_key(self.function_name@) + option_key(self.arity)
    }

    fn push_key(&self, out: &mut Key) {
        let ghost before = out@;
        push_option_key(out, &self.class_name);
        self.function_name.push_key(out);
        push_option_key(out, &self.arity);
        assert(
            before
                + option_key(self.class_name)
                + text_key(self.function_name@)
                + option_key(self.arity)
                =~= before
                    + (
                        option_key(self.class_name)
                            + text_key(self.function_name@)
                            + option_key(self.arity)
                    )
        );
    }
}

impl Clone for PythonProcname {
    fn clone(&self) -> (r: Self)
        ensures
            r == *self,
    {
        PythonProcname {
            class_name: clone_option(&self.class_name),
            function_name: self.function_name.clone(),
        }
    }
}

impl Twin for PythonProcname {
    fn twin(&self) -> (r: Self) {
        self.clone()
    }
}

impl Keyed for PythonProcname {
    open spec fn key(&self) -> KeyV {
        option_key(self.class_name) + text_key(self.function_name@)
    }

    fn push_key(&self, out: &mut Key) {
        let ghost before = out@;
        push_option_key(out, &self.class_name);
        self.function_name.push_key(out);
        assert(
            before + option_key(self.class_name) + text_key(self.function_name@)
                =~= before + (option_key(self.class_name) + text_key(self.function_name@))
        );
    }
}

impl Clone for Procname {
    fn clone(&self) -> (r: Self)
        ensures
            r == *self,
    {
        match self {
            Procname::C(n) => Procname::C(n.clone()),
            Procname::Java(n) => Procname::Java(n.clone()),
            Procname::Hack(n) => Procname::Hack(n.clone()),
            Procname::Python(n) => Procname::Python(n.clone()),
        }
    }
}

impl Twin for Procname {
    fn twin(&self) -> (r: Self) {
        self.clone()
    }
}

impl Keyed for Procname {
    open spec fn key(&self) -> KeyV {
        match self {
            Procname::C(n) => number_key(0) + n.key(),
            Procname::Java(n) => number_key(1) + n.key(),
            Procname::Hack(n) => number_key(2) + n.key(),
            Procname::Python(n) => number_key(3) + n.key(),
        }
    }

    fn push_key(&self, out: &mut Key) {
        let ghost before = out@;
        match self {
            Procname::C(n) => {
                push_number(out, 0);
                n.push_key(out);
                assert(before + number_key(0) + n.key() =~= before + (number_key(0) + n.key()));
            },
            Procname::Java(n) => {
                push_number(out, 1);
                n.push_key(out);
                assert(before + number_key(1) + n.key() =~= before + (number_key(1) + n.key()));
            },
            Procname::Hack(n) => {
                push_number(out, 2);
                n.push_key(out);
                assert(before + number_key(2) + n.key() =~= before + (number_key(2) + n.key()));
            },
            Procname::Python(n) => {
                push_number(out, 3);
                n.push_key(out);
                assert(before + number_key(3) + n.key() =~= before + (number_key(3) + n.key()));
            },
        }
    }
}

impl View for Procname {
    type V = Procname;

    open spec fn view(&self) -> Procname {
        *self
    }
}

impl Dup for Procname {
    fn dup(&self) -> (r: Self) {
        self.clone()
    }
}

impl Clone for TypeName {
    fn clone(&self) -> (r: Self)
        ensures
            r == *self,
    {
        match self {
            TypeName::CStruct(n) => TypeName::CStruct(n.clone()),
            TypeName::CUnion(n) => TypeName::CUnion(n.clone()),
            TypeName::CppClass(n) => TypeName::CppClass(n.clone()),
            TypeName::CFunction(n) => TypeName::CFunction(n.clone()),
            TypeName::JavaClass(n) => TypeName::JavaClass(n.clone()),
            TypeName::HackClass(n) => TypeName::HackClass(n.clone()),
            TypeName::PythonClass(n) => TypeName::PythonClass(n.clone()),
        }
    }
}

impl Twin for TypeName {
    fn twin(&self) -> (r: Self) {
        self.clone()
    }
}

impl Keyed for TypeName {
    open spec fn key(&self) -> KeyV {
        match self {
            TypeName::CStruct(n) => number_key(0) + n.key(),
            TypeName::CUnion(n) => number_key(1) + n.key(),
            TypeName::CppClass(n) => number_key(2) + n.key(),
            TypeName::CFunction(n) => number_key(3) + n.key(),
            TypeName::JavaClass(n) => number_key(4) + n.key(),
            TypeName::HackClass(n) => number_key(5) + n.key(),
            TypeName::PythonClass(n) => number_key(6) + n.key(),
        }
    }

    fn push_key(&self, out: &mut Key) {
        let ghost before = out@;
        match self {
            TypeName::CStruct(n) => {
                push_number(out, 0);
                n.push_key(out);
                assert(before + number_key(0) + n.key() =~= before + (number_key(0) + n.key()));
            },
            TypeName::CUnion(n) => {
                push_number(out, 1);
                n.push_key(out);
                assert(before + number_key(1) + n.key() =~= before + (number_key(1) + n.key()));
            },
            TypeName::CppClass(n) => {
                push_number(out, 2);
                n.push_key(out);
                assert(before + number_key(2) + n.key() =~= before + (number_key(2) + n.key()));
            },
            TypeName::CFunction(n) => {
                push_number(out, 3);
                n.push_key(out);
                assert(before + number_key(3) + n.key() =~= before + (number_key(3) + n.key()));
            },
            TypeName::JavaClass(n) => {
                push_number(out, 4);
                n.push_key(out);
                assert(before + number_key(4) + n.key() =~= before + (number_key(4) + n.key()));
            },
            TypeName::HackClass(n) => {
                push_number(out, 5);
                n.push_key(out);
                assert(before + number_key(5) + n.key() =~= before + (number_key(5) + n.key()));
            },
            TypeName::PythonClass(n) => {
                push_number(out, 6);
                n.push_key(out);
                assert(before + number_key(6) + n.key() =~= before + (number_key(6) + n.key()));
            },
        }
    }
}

/// The key of a type.
pub open spec fn typ_key(t: Typ) -> KeyV
    decreases t,
{
    match *t.desc {
        TypeDesc::Tint => number_key(0),
        TypeDesc::Tfloat => number_key(1),
        TypeDesc::Tvoid => number_key(2),
        TypeDesc::Tptr(inner) => number_key(3) + typ_key(*inner),
        TypeDesc::Tstruct(n) => number_key(4) + n.key(),
        TypeDesc::Tarray(inner) => number_key(5) + typ_key(*inner),
    }
}

impl Keyed for Typ {
    open spec fn key(&self) -> KeyV {
        typ_key(*self)
    }

    fn push_key(&self, out: &mut Key)
        decreases self,
    {
        let ghost before = out@;
        match &*self.desc {
            TypeDesc::Tint => push_number(out, 0),
            TypeDesc::Tfloat => push_number(out, 1),
            TypeDesc::Tvoid => push_number(out, 2),
            TypeDesc::Tptr(inner) => {
                push_number(out, 3);
                inner.push_key(out);
                assert(before + number_key(3) + typ_key(**inner) =~= before + (number_key(3)
                    + typ_key(**inner)));
            },
            TypeDesc::Tstruct(n) => {
                push_number(out, 4);
                n.push_key(out);
                assert(before + number_key(4) + n.key() =~= before + (number_key(4) + n.key()));
            },
            TypeDesc::Tarray(inner) => {
                push_number(out, 5);
                inner.push_key(out);
                assert(before + number_key(5) + typ_key(**inner) =~= before + (number_key(5)
                    + typ_key(**inner)));
            },
        }
    }
}

impl Clone for Exp {
    fn clone(&self) -> (r: Self)
        ensures
            r == *self,
        decreases self,
    {
        match self {
            Exp::Var(id) => Exp::Var(id.clone()),
            Exp::Lvar(pvar) => Exp::Lvar(pvar.clone()),
            Exp::Lfield(base, field) => Exp::Lfield(Box::new((**base).clone()), field.clone()),
            Exp::Lindex(base, index) => Exp::Lindex(
                Box::new((**base).clone()),
                Box::new((**index).clone()),
            ),
            Exp::Cast(typ, inner) => Exp::Cast(typ.clone(), Box::new((**inner).clone())),
            Exp::Int(n) => Exp::Int(*n),
            Exp::Cfun(pname) => Exp::Cfun(pname.clone()),
        }
    }
}

impl Clone for Typ {
    fn clone(&self) -> (r: Self)
        ensures
            r == *self,
        decreases self,
    {
        let desc = match &*self.desc {
            TypeDesc::Tint => TypeDesc::Tint,
            TypeDesc::Tfloat => TypeDesc::Tfloat,
            TypeDesc::Tvoid => TypeDesc::Tvoid,
            TypeDesc::Tptr(inner) => TypeDesc::Tptr(Box::new((**inner).clone())),
            TypeDesc::Tstruct(n) => TypeDesc::Tstruct(n.clone()),
            TypeDesc::Tarray(inner) => TypeDesc::Tarray(Box::new((**inner).clone())),
        };
        Typ { desc: Box::new(desc) }
    }
}

impl Twin for Typ {
    fn twin(&self) -> (r: Self) {
        self.clone()
    }
}

impl View for Typ {
    type V = Typ;

    open spec fn view(&self) -> Typ {
        *self
    }
}

impl Dup for Typ {
    fn dup(&self) -> (r: Self) {
        self.clone()
    }
}

impl Clone for Fieldname {
    fn clone(&self) -> (r: Self)
        ensures
            r == *self,
    {
        Fieldname { class_name: self.class_name.clone(), field_name: self.field_name.clone() }
    }
}

impl Twin for Fieldname {
    fn twin(&self) -> (r: Self) {
        self.clone()
    }
}

impl Keyed for Fieldname {
    open spec fn key(&self) -> KeyV {
        self.class_name.key() + text_key(self.field_name@)
    }

    fn push_key(&self, out: &mut Key) {
        let ghost before = out@;
        self.class_name.push_key(out);
        self.field_name.push_key(out);
        assert(
            before + self.class_name.key() + text_key(self.field_name@)
                =~= before + (self.class_name.key() + text_key(self.field_name@))
        );
    }
}

impl Clone for PvarKind {
    fn clone(&self) -> (r: Self)
        ensures
            r == *self,
    {
        match self {
            PvarKind::Local { proc_name } => PvarKind::Local { proc_name: proc_name.clone() },
            PvarKind::Callee(p) => PvarKind::Callee(p.clone()),
            PvarKind::Seed(p) => PvarKind::Seed(p.clone()),
            PvarKind::Global { initializer } => PvarKind::Global {
                initializer: clone_option(initializer),
            },
        }
    }
}

impl Twin for PvarKind {
    fn twin(&self) -> (r: Self) {
        self.clone()
    }
}

impl Keyed for PvarKind {
    open spec fn key(&self) -> KeyV {
        match self {
            PvarKind::Local { proc_name } => number_key(0) + proc_name.key(),
            PvarKind::Callee(p) => number_key(1) + p.key(),
            PvarKind::Seed(p) => number_key(2) + p.key(),
            PvarKind::Global { initializer } => number_key(3) + option_key(*initializer),
        }
    }

    fn push_key(&self, out: &mut Key) {
        let ghost before = out@;
        match self {
            PvarKind::Local { proc_name } => {
                push_number(out, 0);
                proc_name.push_key(out);
                assert(
                    before + number_key(0) + proc_name.key()
                        =~= before + (number_key(0) + proc_name.key())
                );
            },
            PvarKind::Callee(p) => {
                push_number(out, 1);
                p.push_key(out);
                assert(before + number_key(1) + p.key() =~= before + (number_key(1) + p.key()));
            },
            PvarKind::Seed(p) => {
                push_number(out, 2);
                p.push_key(out);
                assert(before + number_key(2) + p.key() =~= before + (number_key(2) + p.key()));
            },
            PvarKind::Global { initializer } => {
                push_number(out, 3);
                push_option_key(out, initializer);
                assert(
                    before + number_key(3) + option_key(*initializer)
                        =~= before + (number_key(3) + option_key(*initializer))
                );
            },
        }
    }
}

impl Clone for Pvar {
    fn clone(&self) -> (r: Self)
        ensures
            r == *self,
    {
        Pvar { name: self.name.clone(), kind: self.kind.clone() }
    }
}

impl Twin for Pvar {
    fn twin(&self) -> (r: Self) {
        self.clone()
    }
}

impl Keyed for Pvar {
    open spec fn key(&self) -> KeyV {
        self.name.key() + self.kind.key()
    }

    fn push_key(&self, out: &mut Key) {
        let ghost before = out@;
        self.name.push_key(out);
        self.kind.push_key(out);
        assert(
            before + self.name.key() + self.kind.key()
                =~= before + (self.name.key() + self.kind.key())
        );
    }
}

impl View for Pvar {
    type V = Pvar;

    open spec fn view(&self) -> Pvar {
        *self
    }
}

impl Dup for Pvar {
    fn dup(&self) -> (r: Self) {
        self.clone()
    }
}

impl Clone for Ident {
    fn clone(&self) -> (r: Self)
        ensures
            r == *self,
    {
        Ident { kind: self.kind, name: self.name.clone(), stamp: self.stamp }
    }
}

impl Twin for Ident {
    fn twin(&self) -> (r: Self) {
        self.clone()
    }
}

impl Keyed for Ident {
    open spec fn key(&self) -> KeyV {
        self.kind.key() + self.name.key() + number_key(self.stamp as int)
    }

    fn push_key(&self, out: &mut Key) {
        let ghost before = out@;
        self.kind.push_key(out);
        self.name.push_key(out);
        push_number(out, self.stamp as i128);
        assert(
            before + self.kind.key() + self.name.key() + number_key(self.stamp as int)
                =~= before + (self.kind.key() + self.name.key() + number_key(self.stamp as int))
        );
    }
}

impl View for Ident {
    type V = Ident;

    open spec fn view(&self) -> Ident {
        *self
    }
}

impl Dup for Ident {
    fn dup(&self) -> (r: Self) {
        self.clone()
    }
}

impl Clone for Var {
    fn clone(&self) -> (r: Self)
        ensures
            r == *self,
    {
        match self {
            Var::ProgramVar(p) => Var::ProgramVar(Box::new((**p).clone())),
            Var::LogicalVar(i) => Var::LogicalVar(i.clone()),
        }
    }
}

impl Twin for Var {
    fn twin(&self) -> (r: Self) {
        self.clone()
    }
}

impl Keyed for Var {
    open spec fn key(&self) -> KeyV {
        match self {
            Var::ProgramVar(p) => number_key(0) + p.key(),
            Var::LogicalVar(i) => number_key(1) + i.key(),
        }
    }

    fn push_key(&self, out: &mut Key) {
        let ghost before = out@;
        match self {
            Var::ProgramVar(p) => {
                push_number(out, 0);
                p.push_key(out);
                assert(before + number_key(0) + p.key() =~= before + (number_key(0) + p.key()));
            },
            Var::LogicalVar(i) => {
                push_number(out, 1);
                i.push_key(out);
                assert(before + number_key(1) + i.key() =~= before + (number_key(1) + i.key()));
            },
        }
    }
}

impl View for Var {
    type V = Var;

    open spec fn view(&self) -> Var {
        *self
    }
}

impl Dup for Var {
    fn dup(&self) -> (r: Self) {
        self.clone()
    }
}

impl SourceFile {
    pub fn new(path: &str) -> (r: Self)
        ensures
            r matches SourceFile::Path(p) && p@ == path@,
    {
        SourceFile::Path(path.to_string())
    }

    pub open spec fn text(self) -> Seq<char> {
        match self {
            SourceFile::Invalid => "<unknown>"@,
            SourceFile::Path(p) => p@,
        }
    }

    pub fn push_text(&self, out: &mut String)
        ensures
            final(out)@ == old(out)@ + self.text(),
    {
        match self {
            SourceFile::Invalid => out.append("<unknown>"),
            SourceFile::Path(p) => out.append(p.as_str()),
        }
    }
}

impl Location {
    /// The location that stands for "nowhere".
    pub open spec fn nowhere() -> Location {
        Location {
            file: SourceFile::Invalid,
            line: (-1) as i32,
            col: (-1) as i32,
            macro_file_opt: None,
            macro_line: (-1) as i32,
        }
    }

    pub fn dummy() -> (r: Self)
        ensures
            r == Self::nowhere(),
    {
        Location {
            file: SourceFile::Invalid,
            line: -1,
            col: -1,
            macro_file_opt: None,
            macro_line: -1,
        }
    }

    pub fn is_dummy(&self) -> (b: bool)
        ensures
            b == (*self == Self::nowhere()),
    {
        matches!(&self.file, SourceFile::Invalid) && self.line == -1 && self.col == -1
            && self.macro_file_opt.is_none() && self.macro_line == -1
    }

    /// The location as `file:line:col`.
    pub open spec fn text(self) -> Seq<char> {
        self.file.text() + ":"@ + int_text(self.line as int) + ":"@ + int_text(self.col as int)
    }

    pub fn push_text(&self, out: &mut String)
        ensures
            final(out)@ == old(out)@ + self.text(),
    {
        let ghost before = out@;
        self.file.push_text(out);
        out.append(":");
        push_int(out, self.line as i64);
        out.append(":");
        push_int(out, self.col as i64);
        assert(out@ =~= before + self.text());
    }
}

impl QualifiedCppName {
    pub fn from_string(name: &str) -> (r: Self)
        ensures
            r.name@ == name@,
    {
        QualifiedCppName { name: name.to_string() }
    }
}

impl Typ {
    pub fn void() -> (r: Self)
        ensures
            *r.desc == TypeDesc::Tvoid,
    {
        Typ { desc: Box::new(TypeDesc::Tvoid) }
    }

    pub fn mk_int() -> (r: Self)
        ensures
            *r.desc == TypeDesc::Tint,
    {
        Typ { desc: Box::new(TypeDesc::Tint) }
    }

    pub fn mk_ptr(inner: Typ) -> (r: Self)
        ensures
            *r.desc == TypeDesc::Tptr(Box::new(inner)),
    {
        Typ { desc: Box::new(TypeDesc::Tptr(Box::new(inner))) }
    }

    pub fn mk_struct(name: TypeName) -> (r: Self)
        ensures
            *r.desc == TypeDesc::Tstruct(name),
    {
        Typ { desc: Box::new(TypeDesc::Tstruct(name)) }
    }

    pub fn is_void(&self) -> (b: bool)
        ensures
            b == (*self.desc is Tvoid),
    {
        matches!(&*self.desc, TypeDesc::Tvoid)
    }

    pub fn is_int(&self) -> (b: bool)
        ensures
            b == (*self.desc is Tint),
    {
        matches!(&*self.desc, TypeDesc::Tint)
    }

    pub fn is_pointer(&self) -> (b: bool)
        ensures
            b == (*self.desc is Tptr),
    {
        matches!(&*self.desc, TypeDesc::Tptr(_))
    }
}

impl Fieldname {
    pub fn make(class_name: TypeName, field_name: &str) -> (r: Self)
        ensures
            r.class_name == class_name,
            r.field_name@ == field_name@,
    {
        Fieldname { class_name, field_name: field_name.to_string() }
    }
}

impl Procname {
    /// The C function of the given name.
    pub fn c_from_string(name: &str) -> (r: Self)
        ensures
            r matches Procname::C(c) && c.name@ == name@,
    {
        Procname::C(CProcname { name: name.to_string() })
    }

    /// The name of the function or method, without its class.
    pub open spec fn method_name(self) -> Seq<char> {
        match self {
            Procname::C(n) => n.name@,
            Procname::Java(n) => n.method_name@,
            Procname::Hack(n) => n.function_name@,
            Procname::Python(n) => n.function_name@,
        }
    }

    pub fn get_method_name(&self) -> (r: &String)
        ensures
            r@ == self.method_name(),
    {
        match self {
            Procname::C(n) => &n.name,
            Procname::Java(n) => &n.method_name,
            Procname::Hack(n) => &n.function_name,
            Procname::Python(n) => &n.function_name,
        }
    }

    pub fn is_c(&self) -> (b: bool)
        ensures
            b == (self is C),
    {
        matches!(self, Procname::C(_))
    }

    /// The name as `class.method`, or the bare name where there is no class.
    pub open spec fn text(self) -> Seq<char> {
        match self {
            Procname::C(n) => n.name@,
            Procname::Java(n) => n.class_name.0@ + "."@ + n.method_name@,
            Procname::Hack(n) => match n.class_name {
                Some(c) => c.0@ + "."@ + n.function_name@,
                None => n.function_name@,
            },
            Procname::Python(n) => match n.class_name {
                Some(c) => c@ + "."@ + n.function_name@,
                None => n.function_name@,
            },
        }
    }

    pub fn push_text(&self, out: &mut String)
        ensures
            final(out)@ == old(out)@ + self.text(),
    {
        let ghost before = out@;
        match self {
            Procname::C(n) => out.append(n.name.as_str()),
            Procname::Java(n) => {
                out.append(n.class_name.0.as_str());
                out.append(".");
                out.append(n.method_name.as_str());
            },
            Procname::Hack(n) => {
                if let Some(c) = &n.class_name {
                    out.append(c.0.as_str());
                    out.append(".");
                }
                out.append(n.function_name.as_str());
            },
            Procname::Python(n) => {
                if let Some(c) = &n.class_name {
                    out.append(c.as_str());
                    out.append(".");
                }
                out.append(n.function_name.as_str());
            },
        }
        assert(out@ =~= before + self.text());
    }

    /// The name as a string.
    pub fn to_string(&self) -> (r: String)
        ensures
            r@ == self.text(),
    {
        let mut out = String::new();
        self.push_text(&mut out);
        assert(Seq::<char>::empty() + self.text() =~= self.text());
        out
    }
}

impl Mangled {
    pub fn from_string(name: &str) -> (r: Self)
        ensures
            r.name@ == name@,
    {
        Mangled { name: name.to_string() }
    }
}

impl Pvar {
    /// The local variable `name` of `proc_name`.
    pub fn mk(name: Mangled, proc_name: Procname) -> (r: Self)
        ensures
            r.name == name,
            r.kind == (PvarKind::Local { proc_name }),
    {
        Pvar { name, kind: PvarKind::Local { proc_name } }
    }

    pub fn is_global(&self) -> (b: bool)
        ensures
            b == (self.kind is Global),
    {
        matches!(&self.kind, PvarKind::Global { .. })
    }

    /// The procedure the variable belongs to, unless it is global.
    pub open spec fn owner(self) -> Option<Procname> {
        match self.kind {
            PvarKind::Local { proc_name } => Some(proc_name),
            PvarKind::Callee(proc_name) => Some(proc_name),
            PvarKind::Seed(proc_name) => Some(proc_name),
            PvarKind::Global { .. } => None,
        }
    }

    pub fn get_owner(&self) -> (r: Option<&Procname>)
        ensures
            self.owner() == (match r {
                Some(p) => Some(*p),
                None => None,
            }),
    {
        match &self.kind {
            PvarKind::Local { proc_name } => Some(proc_name),
            PvarKind::Callee(proc_name) => Some(proc_name),
            PvarKind::Seed(proc_name) => Some(proc_name),
            PvarKind::Global { .. } => None,
        }
    }

    /// The procedure that initialises the variable, for a global that has one.
    pub fn initializer_procname(&self) -> (r: Option<&Procname>)
        ensures
            (match self.kind {
                PvarKind::Global { initializer } => initializer,
                _ => None,
            }) == (match r {
                Some(p) => Some(*p),
                None => None,
            }),
    {
        match &self.kind {
            PvarKind::Global { initializer } => match initializer {
                Some(p) => Some(p),
                None => None,
            },
            _ => None,
        }
    }
}

impl IdentName {
    pub fn from_string(name: &str) -> (r: Self)
        ensures
            r.name@ == name@,
    {
        IdentName { name: name.to_string() }
    }
}

impl Ident {
    pub fn create_normal(name: IdentName, stamp: i32) -> (r: Self)
        ensures
            r == (Ident { kind: IdentKind::Normal, name, stamp }),
    {
        Ident { kind: IdentKind::Normal, name, stamp }
    }

    /// The identifier that nothing is read from.
    pub fn create_none() -> (r: Self)
        ensures
            r.kind == IdentKind::Unused,
            r.name.name@ == Seq::<char>::empty(),
            r.stamp == 0,
    {
        Ident { kind: IdentKind::Unused, name: IdentName { name: String::new() }, stamp: 0 }
    }
}

impl Var {
    /// The name of the program variable, or of the identifier with its stamp.
    pub open spec fn text(self) -> Seq<char> {
        match self {
            Var::ProgramVar(p) => p.name.name@,
            Var::LogicalVar(i) => i.name.name@ + "$"@ + int_text(i.stamp as int),
        }
    }

    pub fn push_text(&self, out: &mut String)
        ensures
            final(out)@ == old(out)@ + self.text(),
    {
        let ghost before = out@;
        match self {
            Var::ProgramVar(p) => out.append(p.name.name.as_str()),
            Var::LogicalVar(i) => {
                out.append(i.name.name.as_str());
                out.append("$");
                push_int(out, i.stamp as i64);
            },
        }
        assert(out@ =~= before + self.text());
    }
}

impl IntLit {
    pub fn zero() -> (r: Self)
        ensures
            r.value == 0,
    {
        IntLit { value: 0 }
    }

    pub fn of_int(value: i64) -> (r: Self)
        ensures
            r.value == value,
    {
        IntLit { value }
    }

    pub fn is_zero(&self) -> (b: bool)
        ensures
            b == (self.value == 0),
    {
        self.value == 0
    }
}

/// A procedure: its name, its signature and its control-flow graph.
#[derive(Debug, PartialEq, Eq)]
pub struct Procdesc {
    pub proc_name: Procname,
    pub ret_type: Typ,
    pub loc: Location,
    pub formals: Vec<(Mangled, Typ)>,
    pub nodes: Vec<Node>,
    pub exit_node: usize,
    /// The procedure never returns to its caller.
    pub is_no_return: bool,
}

impl Procdesc {
    /// A procedure without formals and nodes.
    pub fn new(proc_name: Procname, ret_type: Typ, loc: Location) -> (r: Self)
        ensures
            r.proc_name == proc_name,
            r.ret_type == ret_type,
            r.loc == loc,
            r.formals@ == Seq::<(Mangled, Typ)>::empty(),
            r.nodes@ == Seq::<Node>::empty(),
            r.exit_node == 0,
            !r.is_no_return,
    {
        Procdesc {
            proc_name,
            ret_type,
            loc,
            formals: Vec::new(),
            nodes: Vec::new(),
            exit_node: 0,
            is_no_return: false,
        }
    }
}

} // verus!
