use kmeans_pp::decision_tree::{
    attribute_named, get_attribute_value, predict, Attribute, DatosCualitativos, DecisionBranch,
    DecisionNode,
};

fn record(negocio: &str, estilo: &str, recomendado: &str) -> DatosCualitativos {
    DatosCualitativos {
        negocio: negocio.to_string(),
        calificacion: "4".to_string(),
        estilo: estilo.to_string(),
        recomendado: recomendado.to_string(),
        fecha_resena: "2024".to_string(),
        tipo_comida: "Mexicana".to_string(),
    }
}

fn leaf(class: &str, count: usize) -> Box<DecisionNode> {
    Box::new(DecisionNode::Leaf { class: class.to_string(), count })
}

fn tree() -> DecisionNode {
    let by_style = DecisionNode::Internal {
        attribute: Attribute::Estilo,
        branches: vec![
            DecisionBranch { value: "Formal".to_string(), subtree: leaf("no", 2) },
            DecisionBranch { value: "Casual".to_string(), subtree: leaf("si", 5) },
        ],
        default_class: "si".to_string(),
    };
    DecisionNode::Internal {
        attribute: Attribute::Negocio,
        branches: vec![
            DecisionBranch { value: "Muuz".to_string(), subtree: Box::new(by_style) },
            DecisionBranch { value: "GBD".to_string(), subtree: leaf("no", 3) },
        ],
        default_class: "no".to_string(),
    }
}

#[test]
fn prediction_follows_matching_branches() {
    let t = tree();
    assert_eq!(predict(&t, &record("Muuz", "Formal", "si")), "no");
    assert_eq!(predict(&t, &record("Muuz", "Casual", "no")), "si");
    assert_eq!(predict(&t, &record("GBD", "Casual", "si")), "no");
}

#[test]
fn prediction_falls_back_on_default_class() {
    let t = tree();
    assert_eq!(predict(&t, &record("Uat", "Casual", "si")), "no");
    assert_eq!(predict(&t, &record("Muuz", "N/A", "no")), "si");
}

#[test]
fn prediction_of_a_leaf_is_its_class() {
    let t = DecisionNode::Leaf { class: "unknown".to_string(), count: 0 };
    assert_eq!(predict(&t, &record("Muuz", "Formal", "si")), "unknown");
}

#[test]
fn attribute_values_are_read_from_fields() {
    let r = record("Muuz", "Formal", "si");
    assert_eq!(get_attribute_value(&r, Attribute::Negocio), "Muuz");
    assert_eq!(get_attribute_value(&r, Attribute::Calificacion), "4");
    assert_eq!(get_attribute_value(&r, Attribute::Estilo), "Formal");
    assert_eq!(get_attribute_value(&r, Attribute::Recomendado), "si");
    assert_eq!(get_attribute_value(&r, Attribute::FechaResena), "2024");
    assert_eq!(get_attribute_value(&r, Attribute::TipoComida), "Mexicana");
}

#[test]
fn attributes_are_found_by_field_name() {
    assert_eq!(attribute_named(&"negocio".to_string()), Some(Attribute::Negocio));
    assert_eq!(attribute_named(&"calificacion".to_string()), Some(Attribute::Calificacion));
    assert_eq!(attribute_named(&"estilo".to_string()), Some(Attribute::Estilo));
    assert_eq!(attribute_named(&"recomendado".to_string()), Some(Attribute::Recomendado));
    assert_eq!(attribute_named(&"fecha_resena".to_string()), Some(Attribute::FechaResena));
    assert_eq!(attribute_named(&"tipo_comida".to_string()), Some(Attribute::TipoComida));
    assert_eq!(attribute_named(&"precio".to_string()), None);
}
