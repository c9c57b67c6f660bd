use rand_chacha::ChaCha8Rng;
use vstd::prelude::*;
use vstd::string::StringExecFns;

use crate::dataset::Dataset;
use crate::decision_tree::DatosCualitativos;
use crate::random::{draw_below, shuffle_records};

verus! {

/// Every value of the list lies in `[min, max)`.
pub open spec fn within(v: Seq<i64>, min: i64, max: i64) -> bool {
    forall|j: int| 0 <= j < v.len() ==> min <= #[trigger] v[j] < max
}

/// `n` rows of `width` values each, all in `[min, max)`.
pub open spec fn is_random_matrix(
    m: Seq<Vec<i64>>,
    n: nat,
    width: nat,
    min: i64,
    max: i64,
) -> bool {
    &&& m.len() == n
    &&& forall|i: int| 0 <= i < n ==> (#[trigger] m[i])@.len() == width && within(m[i]@, min, max)
}

/// `n` values drawn uniformly from `[min, max)`.
pub fn create_lista(n: usize, min: i64, max: i64, rng: &mut ChaCha8Rng) -> (r: Vec<i64>)
    requires
        min < max,
    ensures
        r@.len() == n,
        within(r@, min, max),
{
    let span: u128 = (max as i128 - min as i128) as u128;
    let mut r: Vec<i64> = Vec::new();
    let mut i: usize = 0;
    while i < n
        invariant
            i <= n,
            min < max,
            span == max - min,
            r@.len() == i,
            within(r@, min, max),
        decreases n - i,
    {
        let d = draw_below(rng, span);
        let v = (min as i128 + d as i128) as i64;
        r.push(v);
        i = i + 1;
    }
    r
}

/// `n_listas` lists of `e_lista` values, each drawn uniformly from `[min, max)`.
pub fn random_f64_matrix(
    e_lista: usize,
    n_listas: usize,
    min: i64,
    max: i64,
    rng: &mut ChaCha8Rng,
) -> (r: Vec<Vec<i64>>)
    requires
        min < max,
    ensures
        is_random_matrix(r@, n_listas as nat, e_lista as nat, min, max),
{
    let mut r: Vec<Vec<i64>> = Vec::new();
    let mut i: usize = 0;
    while i < n_listas
        invariant
            i <= n_listas,
            min < max,
            is_random_matrix(r@, i as nat, e_lista as nat, min, max),
        decreases n_listas - i,
    {
        let row = create_lista(e_lista, min, max, rng);
        r.push(row);
        i = i + 1;
    }
    r
}

/// `n` labels, each drawn uniformly from `possible`.
fn random_labels(n: usize, possible: &Vec<String>, rng: &mut ChaCha8Rng) -> (r: Vec<String>)
    requires
        possible@.len() > 0,
    ensures
        r@.len() == n,
        forall|i: int| 0 <= i < n ==> possible@.contains(#[trigger] r@[i]),
{
    let mut r: Vec<String> = Vec::new();
    let mut i: usize = 0;
    while i < n
        invariant
            i <= n,
            possible@.len() > 0,
            r@.len() == i,
            forall|t: int| 0 <= t < i ==> possible@.contains(#[trigger] r@[t]),
        decreases n - i,
    {
        let at = draw_below(rng, possible.len() as u128) as usize;
        let label = possible[at].clone();
        assert(possible@[at as int] == label);
        r.push(label);
        i = i + 1;
    }
    r
}

/// A copy of each string, in order.
fn copy_strings(v: &Vec<String>) -> (r: Vec<String>)
    ensures
        r@ == v@,
{
    let mut r: Vec<String> = Vec::new();
    let mut i: usize = 0;
    while i < v.len()
        invariant
            i <= v@.len(),
            r@ == v@.take(i as int),
        decreases v@.len() - i,
    {
        r.push(v[i].clone());
        i = i + 1;
        assert(r@ =~= v@.take(i as int));
    }
    assert(v@.take(v@.len() as int) =~= v@);
    r
}

impl Dataset {
    /// A testing and a training dataset of `num_samples` random rows each, with
    /// `num_features` values per row drawn from `[min, max)` and a class label per row drawn
    /// from `possible_classes`; then the feature names again.
    pub fn initialize_datasets(
        num_features: usize,
        num_samples: usize,
        min: i64,
        max: i64,
        feature_names: Vec<String>,
        possible_classes: Vec<String>,
        rng: &mut ChaCha8Rng,
    ) -> (r: (Dataset, Dataset, Vec<String>))
        requires
            min < max,
            num_samples > 0 ==> possible_classes@.len() > 0,
        ensures
            is_random_matrix(r.0.rows@, num_samples as nat, num_features as nat, min, max),
            is_random_matrix(r.1.rows@, num_samples as nat, num_features as nat, min, max),
            r.0.class_labels@.len() == num_samples,
            r.1.class_labels@.len() == num_samples,
            forall|i: int|
                0 <= i < num_samples ==> possible_classes@.contains(#[trigger] r.0.class_labels@[i]),
            forall|i: int|
                0 <= i < num_samples ==> possible_classes@.contains(#[trigger] r.1.class_labels@[i]),
            r.0.feature_names@ == feature_names@,
            r.1.feature_names@ == feature_names@,
            r.2 == feature_names,
    {
        let training_data = random_f64_matrix(num_features, num_samples, min, max, rng);
        let training_labels = if num_samples > 0 {
            random_labels(num_samples, &possible_classes, rng)
        } else {
            Vec::new()
        };
        let training_dataset = Dataset::new(
            training_data,
            copy_strings(&feature_names),
            training_labels,
        );
        let testing_data = random_f64_matrix(num_features, num_samples, min, max, rng);
        let testing_labels = if num_samples > 0 {
            random_labels(num_samples, &possible_classes, rng)
        } else {
            Vec::new()
        };
        let testing_dataset = Dataset::new(
            testing_data,
            copy_strings(&feature_names),
            testing_labels,
        );
        (testing_dataset, training_dataset, feature_names)
    }
}

/// One of `options`, drawn uniformly.
fn pick(options: &[&str], rng: &mut ChaCha8Rng) -> (r: String)
    requires
        options@.len() > 0,
    ensures
        exists|i: int| 0 <= i < options@.len() && r@ == (#[trigger] options@[i])@,
{
    let at = draw_below(rng, options.len() as u128) as usize;
    let r = String::from_str(options[at]);
    assert(r@ == options@[at as int]@);
    r
}

/// `n` restaurant ratings whose fields are drawn uniformly from fixed lists of values.
pub fn create_qualitative_matrix(n: usize, rng: &mut ChaCha8Rng) -> (r: Vec<DatosCualitativos>)
    ensures
        r@.len() == n,
{
    let negocios = ["Guero Isaac", "Muuz", "Iceberg Lounge", "Uat", "Mamitas", "GBD"];
    let calificaciones = ["0", "1", "2", "3", "4", "5"];
    let estilos = ["Casual", "Informal", "Formal", "No importa", "N/A"];
    let recomendados = ["si", "no"];
    let fechas_resenas = ["2025", "2024", "2023", "2022", "2021", "2020", "2019", "2018"];
    let tipos_comida = [
        "Mexicana",
        "Italiana",
        "Griega",
        "Mediterranea",
        "China",
        "Japonesa",
        "Brasileña",
    ];
    let mut r: Vec<DatosCualitativos> = Vec::new();
    let mut i: usize = 0;
    while i < n
        invariant
            i <= n,
            r@.len() == i,
            negocios@.len() == 6,
            calificaciones@.len() == 6,
            estilos@.len() == 5,
            recomendados@.len() == 2,
            fechas_resenas@.len() == 8,
            tipos_comida@.len() == 7,
        decreases n - i,
    {
        let record = DatosCualitativos {
            negocio: pick(negocios.as_slice(), rng),
            calificacion: pick(calificaciones.as_slice(), rng),
            estilo: pick(estilos.as_slice(), rng),
            recomendado: pick(recomendados.as_slice(), rng),
            fecha_resena: pick(fechas_resenas.as_slice(), rng),
            tipo_comida: pick(tipos_comida.as_slice(), rng),
        };
        r.push(record);
        i = i + 1;
    }
    r
}

/// Size of the training part of a split: `len * (1_000_000 - test_ppm) / 1_000_000`,
/// rounded down.
pub open spec fn train_size(len: nat, test_ppm: nat) -> nat {
    (len * (1000000 - test_ppm) as nat / 1000000) as nat
}

/// Shuffles the records, then splits them into a training part of `train_size` records
/// and a testing part with the rest. `test_ppm` is the testing share in millionths.
pub fn split_qualitative_dataset(
    data: Vec<DatosCualitativos>,
    test_ppm: u32,
    rng: &mut ChaCha8Rng,
) -> (r: (Vec<DatosCualitativos>, Vec<DatosCualitativos>))
    requires
        test_ppm <= 1000000,
    ensures
        r.0@.len() == train_size(data@.len(), test_ppm as nat),
        (r.0@ + r.1@).to_multiset() == data@.to_multiset(),
{
    let mut data_copy = data;
    shuffle_records(&mut data_copy, rng);
    let ghost shuffled = data_copy@;
    proof {
        broadcast use vstd::seq_lib::group_to_multiset_ensures;

        assert(shuffled.len() == shuffled.to_multiset().len());
        assert(data@.len() == data@.to_multiset().len());
    }
    let len = data_copy.len() as u128;
    proof {
        assert(len * (1000000 - test_ppm) <= 0x1_0000_0000_0000_0000 * 1000000) by (nonlinear_arith)
            requires
                len < 0x1_0000_0000_0000_0000,
                test_ppm <= 1000000,
        ;
        assert(len * (1000000 - test_ppm) / 1000000 <= len) by (nonlinear_arith)
            requires
                test_ppm <= 1000000,
        ;
    }
    let split_idx = (len * (1000000 - test_ppm as u128) / 1000000) as usize;
    let test_data = data_copy.split_off(split_idx);
    proof {
        assert(data_copy@ + test_data@ =~= shuffled);
    }
    (data_copy, test_data)
}

} // verus!
