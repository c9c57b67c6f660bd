use vstd::prelude::*;
use vstd::string::StringExecFns;

verus! {

/// One restaurant rating with qualitative attributes.
#[derive(Debug, Clone)]
pub struct DatosCualitativos {
    pub negocio: String,
    pub calificacion: String,
    pub estilo: String,
    pub recomendado: String,
    pub fecha_resena: String,
    pub tipo_comida: String,
}

/// The attributes of a record that a tree can test or predict.
#[derive(Debug, Clone, Copy, PartialEq, Eq, Structural)]
pub enum Attribute {
    Negocio,
    Calificacion,
    Estilo,
    Recomendado,
    FechaResena,
    TipoComida,
}

/// One outgoing edge of a test node: the subtree for records whose value is `value`.
#[derive(Debug)]
pub struct DecisionBranch {
    pub value: String,
    pub subtree: Box<DecisionNode>,
}

/// A node of an ID3 decision tree.
#[derive(Debug)]
pub enum DecisionNode {
    /// Predicts `class`, the majority class of the `count` training records that reached it.
    Leaf { class: String, count: usize },
    /// Tests `attribute`; a value that no branch holds gets `default_class`.
    Internal { attribute: Attribute, branches: Vec<DecisionBranch>, default_class: String },
}

/// The value that a record holds for an attribute.
pub open spec fn attribute_value(item: DatosCualitativos, attribute: Attribute) -> Seq<char> {
    match attribute {
        Attribute::Negocio => item.negocio@,
        Attribute::Calificacion => item.calificacion@,
        Attribute::Estilo => item.estilo@,
        Attribute::Recomendado => item.recomendado@,
        Attribute::FechaResena => item.fecha_resena@,
        Attribute::TipoComida => item.tipo_comida@,
    }
}

/// The attribute whose field is called `name`, if any.
pub open spec fn attribute_of_name(name: Seq<char>) -> Option<Attribute> {
    if name == "negocio"@ {
        Some(Attribute::Negocio)
    } else if name == "calificacion"@ {
        Some(Attribute::Calificacion)
    } else if name == "estilo"@ {
        Some(Attribute::Estilo)
    } else if name == "recomendado"@ {
        Some(Attribute::Recomendado)
    } else if name == "fecha_resena"@ {
        Some(Attribute::FechaResena)
    } else if name == "tipo_comida"@ {
        Some(Attribute::TipoComida)
    } else {
        None
    }
}

/// Index of the first of the first `n` branches whose value is `v`, if any.
pub open spec fn branch_index(bs: Seq<DecisionBranch>, v: Seq<char>, n: nat) -> Option<int>
    decreases n,
{
    if n == 0 {
        None
    } else {
        match branch_index(bs, v, (n - 1) as nat) {
            Some(i) => Some(i),
            None => if bs[n - 1].value@ == v {
                Some(n - 1)
            } else {
                None
            },
        }
    }
}

/// The class that the tree predicts for a record: follow the branch that holds the
/// record's value of each tested attribute, and fall back on the node's default class
/// where none does.
pub open spec fn predicted(tree: DecisionNode, item: DatosCualitativos) -> Seq<char>
    decreases tree,
{
    match tree {
        DecisionNode::Leaf { class, .. } => class@,
        DecisionNode::Internal { attribute, branches, default_class } => {
            let v = attribute_value(item, attribute);
            match branch_index(branches@, v, branches@.len()) {
                Some(i) => if 0 <= i < branches@.len() {
                    predicted(*branches@[i].subtree, item)
                } else {
                    default_class@
                },
                None => default_class@,
            }
        },
    }
}

/// A found index holds the value; when none is found, no branch holds it.
proof fn lemma_branch_index(bs: Seq<DecisionBranch>, v: Seq<char>, n: nat)
    requires
        n <= bs.len(),
    ensures
        branch_index(bs, v, n) matches Some(i) ==> 0 <= i < n && bs[i].value@ == v,
        branch_index(bs, v, n) is None ==> forall|t: int| 0 <= t < n ==> #[trigger] bs[t].value@ != v,
    decreases n,
{
    if n > 0 {
        lemma_branch_index(bs, v, (n - 1) as nat);
    }
}

/// The value that `item` holds for `attribute`.
pub fn get_attribute_value(item: &DatosCualitativos, attribute: Attribute) -> (r: String)
    ensures
        r@ == attribute_value(*item, attribute),
{
    match attribute {
        Attribute::Negocio => item.negocio.clone(),
        Attribute::Calificacion => item.calificacion.clone(),
        Attribute::Estilo => item.estilo.clone(),
        Attribute::Recomendado => item.recomendado.clone(),
        Attribute::FechaResena => item.fecha_resena.clone(),
        Attribute::TipoComida => item.tipo_comida.clone(),
    }
}

/// The attribute whose field is called `name`, or `None` for any other name.
pub fn attribute_named(name: &String) -> (r: Option<Attribute>)
    ensures
        r == attribute_of_name(name@),
{
    if *name == String::from_str("negocio") {
        Some(Attribute::Negocio)
    } else if *name == String::from_str("calificacion") {
        Some(Attribute::Calificacion)
    } else if *name == String::from_str("estilo") {
        Some(Attribute::Estilo)
    } else if *name == String::from_str("recomendado") {
        Some(Attribute::Recomendado)
    } else if *name == String::from_str("fecha_resena") {
        Some(Attribute::FechaResena)
    } else if *name == String::from_str("tipo_comida") {
        Some(Attribute::TipoComida)
    } else {
        None
    }
}

/// The class that the tree predicts for `item`.
#[verifier::loop_isolation(false)]
pub fn predict(tree: &DecisionNode, item: &DatosCualitativos) -> (r: String)
    ensures
        r@ == predicted(*tree, *item),
    decreases tree,
{
    match tree {
        DecisionNode::Leaf { class, .. } => class.clone(),
        DecisionNode::Internal { attribute, branches, default_class } => {
            let value = get_attribute_value(item, *attribute);
            let ghost v = value@;
            let mut i: usize = 0;
            while i < branches.len()
                invariant
                    i <= branches@.len(),
                    v == value@,
                    branch_index(branches@, v, i as nat) is None,
                decreases branches@.len() - i,
            {
                if branches[i].value == value {
                    proof {
                        assert(branch_index(branches@, v, (i + 1) as nat) == Some(i as int));
                        lemma_branch_index(branches@, v, branches@.len());
                        assert(branch_index(branches@, v, branches@.len()) == Some(i as int)) by {
                            lemma_branch_index_extends(branches@, v, (i + 1) as nat, branches@.len());
                        }
                        assert(decreases_to!(*tree => *branches@[i as int].subtree));
                    }
                    return predict(&branches[i].subtree, item);
                }
                i = i + 1;
            }
            default_class.clone()
        },
    }
}

/// Once a branch holding the value is found, more branches do not change the index.
proof fn lemma_branch_index_extends(bs: Seq<DecisionBranch>, v: Seq<char>, m: nat, n: nat)
    requires
        m <= n <= bs.len(),
        branch_index(bs, v, m) is Some,
    ensures
        branch_index(bs, v, n) == branch_index(bs, v, m),
    decreases n - m,
{
    if m < n {
        lemma_branch_index_extends(bs, v, m, (n - 1) as nat);
    }
}

} // verus!
