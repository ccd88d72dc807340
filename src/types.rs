use vstd::prelude::*;

verus! {

/// A type as written in a schema. `T` is how custom types are referred to:
/// by name before resolution, by table index after it.
pub enum SmithType<T> {
    I8,
    I16,
    I32,
    F32,
    F64,
    U8,
    U16,
    U32,
    U64,
    UInt,
    Bool,
    String,
    /// (reference, type arguments)
    CustomType(T, Vec<SmithType<T>>),
    Array(Box<SmithType<T>>),
}

pub struct SmithStruct<T> {
    pub name: String,
    pub fields: Vec<(String, SmithType<T>)>,
}

pub struct SmithEnum<T> {
    pub name: String,
    pub variants: Vec<(String, Option<SmithType<T>>)>,
}

pub enum SmithCustomTypVariant<T> {
    Struct(SmithStruct<T>),
    Enum(SmithEnum<T>),
}

/// One entry of a type table: a struct or an enum, with its id.
pub struct SmithCustomTyp<T> {
    pub variant: SmithCustomTypVariant<T>,
    pub id: usize,
}

pub open spec fn custom_name<T>(c: SmithCustomTyp<T>) -> Seq<char> {
    match c.variant {
        SmithCustomTypVariant::Struct(s) => s.name@,
        SmithCustomTypVariant::Enum(e) => e.name@,
    }
}

impl<T> SmithCustomTyp<T> {
    pub fn get_name(&self) -> (r: &String)
        ensures
            r@ == custom_name(*self),
    {
        match &self.variant {
            SmithCustomTypVariant::Struct(s) => &s.name,
            SmithCustomTypVariant::Enum(e) => &e.name,
        }
    }

    pub fn as_struct(&self) -> (r: Option<&SmithStruct<T>>)
        ensures
            match self.variant {
                SmithCustomTypVariant::Struct(s) => r == Some(&s),
                SmithCustomTypVariant::Enum(_) => r is None,
            },
    {
        match &self.variant {
            SmithCustomTypVariant::Struct(s) => Some(s),
            SmithCustomTypVariant::Enum(_e) => None,
        }
    }

    pub fn as_enum(&self) -> (r: Option<&SmithEnum<T>>)
        ensures
            match self.variant {
                SmithCustomTypVariant::Enum(e) => r == Some(&e),
                SmithCustomTypVariant::Struct(_) => r is None,
            },
    {
        match &self.variant {
            SmithCustomTypVariant::Struct(_s) => None,
            SmithCustomTypVariant::Enum(e) => Some(e),
        }
    }
}

/// Index of the first entry of `table` at or after `i` whose name is `name`.
pub open spec fn position_from<T>(table: Seq<SmithCustomTyp<T>>, name: Seq<char>, i: int) -> Option<
    nat,
>
    decreases table.len() - i,
{
    if i < 0 || i >= table.len() {
        None
    } else if custom_name(table[i]) == name {
        Some(i as nat)
    } else {
        position_from(table, name, i + 1)
    }
}

pub open spec fn position_of<T>(table: Seq<SmithCustomTyp<T>>, name: Seq<char>) -> Option<nat> {
    position_from(table, name, 0)
}

pub proof fn lemma_position_from<T>(table: Seq<SmithCustomTyp<T>>, name: Seq<char>, i: int)
    requires
        0 <= i <= table.len(),
    ensures
        match position_from(table, name, i) {
            Some(k) => i <= k < table.len() && custom_name(table[k as int]) == name && forall|j: int|
                i <= j < k ==> custom_name(#[trigger] table[j]) != name,
            None => forall|j: int| i <= j < table.len() ==> custom_name(#[trigger] table[j]) != name,
        },
    decreases table.len() - i,
{
    if i < table.len() && custom_name(table[i]) != name {
        lemma_position_from(table, name, i + 1);
    }
}

/// Finds the first entry of `table` named `name`.
pub fn find_position<T>(table: &Vec<SmithCustomTyp<T>>, name: &String) -> (r: Option<usize>)
    ensures
        match position_of(table@, name@) {
            Some(k) => r is Some && r->0 == k && k < table@.len(),
            None => r is None,
        },
{
    let mut i: usize = 0;
    while i < table.len()
        invariant
            0 <= i <= table@.len(),
            position_of(table@, name@) == position_from(table@, name@, i as int),
        decreases table@.len() - i,
    {
        proof {
            lemma_position_from(table@, name@, i as int);
        }
        if table[i].get_name().eq(name) {
            return Some(i);
        }
        i = i + 1;
    }
    None
}

/// A compiled schema: every expanded declaration in table order.
pub struct SmithProgram<T> {
    pub expanded: Vec<SmithCustomTyp<T>>,
    /// The declarations with generic parameters, in source order, as written.
    pub generics: Vec<crate::parser::ASTRootType>,
}

impl<T> SmithProgram<T> {
    pub fn get_by_name(&self, name: &String) -> (r: Option<&SmithCustomTyp<T>>)
        ensures
            match position_of(self.expanded@, name@) {
                Some(k) => r == Some(&self.expanded@[k as int]),
                None => r is None,
            },
    {
        let pos = find_position(&self.expanded, name);
        match pos {
            Some(k) => {
                Some(&self.expanded[k])
            },
            None => None,
        }
    }

    pub fn type_by_name(&self, name: &String) -> (r: Option<SmithType<usize>>)
        ensures
            match position_of(self.expanded@, name@) {
                Some(k) => r matches Some(SmithType::CustomType(id, args)) && id == k && args@.len()
                    == 0,
                None => r is None,
            },
    {
        match find_position(&self.expanded, name) {
            Some(k) => Some(SmithType::CustomType(k, Vec::new())),
            None => None,
        }
    }
}

} // verus!
