use holos_tda::classes::canonical::{basis_class_id, group_id};
use holos_tda::classes::provenance::{source_graph_digest, PersistentClass, PersistentClassProvenance};
use holos_tda::classes::space::{ExplainedDiagram, PersistentClassSpace};
use holos_tda::classes::{Cocycle, CocycleTerm};
use holos_tda::diagram::{Bar, Diagram, INFINITY_BITS};

fn bits(value: f64) -> u64 {
    value.to_bits()
}

fn square() -> Vec<(usize, usize, u64)> {
    vec![(0, 1, bits(1.0)), (0, 3, bits(1.0)), (1, 2, bits(1.0)), (2, 3, bits(1.0)), (0, 2, bits(2.0))]
}

fn cocycle() -> Cocycle {
    Cocycle { modulus: 3, scale: bits(1.5), terms: vec![CocycleTerm { u: 0, v: 1, coefficient: 1 }] }
}

fn interval() -> Bar {
    Bar { dim: 1, birth: bits(1.0), death: bits(2.0) }
}

fn class() -> PersistentClass {
    let cocycle = cocycle();
    let group = group_id(interval(), 3, &[cocycle.clone()]);
    let id = basis_class_id(group, 0, &cocycle);
    let provenance = PersistentClassProvenance::from_parts(
        source_graph_digest(4, &square(), cocycle.scale),
        *id.as_bytes(),
        interval(),
        3,
        cocycle.scale,
    );
    PersistentClass { id, group_id: group, basis_index: 0, interval: interval(), cocycle, provenance: Some(provenance) }
}

#[test]
fn a_recorded_class_validates_against_its_graph() {
    let class = class();
    class.validate_provenance(4, &square()).unwrap();
    let record = class.provenance().unwrap();
    assert_eq!(record.interval(), interval());
    assert_eq!(record.modulus(), 3);
    assert_eq!(record.scale(), bits(1.5));
    assert_eq!(record.class_digest(), class.id.as_bytes());
    assert_eq!(record.source_graph_digest(), &source_graph_digest(4, &square(), bits(1.5)));
}

#[test]
fn edges_above_the_scale_do_not_change_the_binding() {
    let class = class();
    let mut longer = square();
    longer[4].2 = bits(3.0);
    class.validate_provenance(4, &longer).unwrap();
    let mut moved = square();
    moved[0].2 = bits(1.25);
    assert_eq!(
        class.validate_provenance(4, &moved).unwrap_err().message(),
        "persistent class belongs to a different active graph"
    );
}

#[test]
fn each_metadata_mismatch_has_its_own_message() {
    let class = class();
    let record = *class.provenance().unwrap();
    let digest = *class.id.as_bytes();
    let mut other_digest = digest;
    other_digest[0] ^= 1;
    assert_eq!(
        record.validate(4, &square(), other_digest, interval(), &class.cocycle).unwrap_err().message(),
        "persistent class identity differs from its provenance"
    );
    let shifted = Bar { dim: 1, birth: bits(1.0), death: bits(3.0) };
    assert_eq!(
        record.validate(4, &square(), digest, shifted, &class.cocycle).unwrap_err().message(),
        "persistent class interval differs from its provenance"
    );
    let mut field = class.cocycle.clone();
    field.modulus = 5;
    assert_eq!(
        record.validate(4, &square(), digest, interval(), &field).unwrap_err().message(),
        "persistent class field differs from its provenance"
    );
    let mut scaled = class.cocycle.clone();
    scaled.scale = bits(1.75);
    assert_eq!(
        record.validate(4, &square(), digest, interval(), &scaled).unwrap_err().message(),
        "persistent class scale differs from its provenance"
    );
}

#[test]
fn a_scale_outside_the_interval_is_refused() {
    let class = class();
    let late = Bar { dim: 1, birth: bits(0.5), death: bits(1.5) };
    let record = PersistentClassProvenance::from_parts([0; 32], *class.id.as_bytes(), late, 3, bits(1.5));
    assert_eq!(
        record.validate(4, &square(), *class.id.as_bytes(), late, &class.cocycle).unwrap_err().message(),
        "persistent class representative is outside its interval"
    );
    let essential = Bar { dim: 1, birth: bits(1.0), death: INFINITY_BITS };
    let open = PersistentClassProvenance::from_parts(
        source_graph_digest(4, &square(), bits(1.5)),
        *class.id.as_bytes(),
        essential,
        3,
        bits(1.5),
    );
    open.validate(4, &square(), *class.id.as_bytes(), essential, &class.cocycle).unwrap();
    let zero = Bar { dim: 0, birth: bits(1.0), death: bits(2.0) };
    let wrong_dim = PersistentClassProvenance::from_parts([0; 32], *class.id.as_bytes(), zero, 3, bits(1.5));
    assert_eq!(
        wrong_dim.validate(4, &square(), *class.id.as_bytes(), zero, &class.cocycle).unwrap_err().message(),
        "persistent class representative is outside its interval"
    );
}

#[test]
fn missing_provenance_and_noncanonical_ids_are_refused() {
    let mut bare = class();
    bare.provenance = None;
    assert_eq!(
        bare.validate_provenance(4, &square()).unwrap_err().message(),
        "persistent class has no interval-bound provenance"
    );
    let mut moved = class();
    moved.basis_index = 1;
    assert_eq!(
        moved.validate_provenance(4, &square()).unwrap_err().message(),
        "persistent class identifier is not canonical"
    );
}

#[test]
fn class_count_sums_every_basis() {
    let class = class();
    let space = |count: usize| PersistentClassSpace {
        id: class.group_id,
        interval: interval(),
        basis: vec![class.clone(); count],
        critical_pairs: Vec::new(),
    };
    let explained = ExplainedDiagram { diagram: Diagram { bars: vec![interval()] }, spaces: vec![space(2), space(0), space(3)] };
    assert_eq!(explained.class_count(), 5);
    let empty = ExplainedDiagram { diagram: Diagram { bars: Vec::new() }, spaces: Vec::new() };
    assert_eq!(empty.class_count(), 0);
}

#[test]
fn provenance_rejects_noncanonical_interval_deaths() {
    for death in [f64::NEG_INFINITY, f64::NAN] {
        let mut altered = class();
        altered.interval.death = bits(death);
        let (source_graph_digest, class_digest, modulus, scale) = {
            let provenance = altered.provenance.as_ref().unwrap();
            (*provenance.source_graph_digest(), *provenance.class_digest(), provenance.modulus(), provenance.scale())
        };
        altered.provenance =
            Some(PersistentClassProvenance::from_parts(source_graph_digest, class_digest, altered.interval, modulus, scale));
        let error = altered.validate_provenance(4, &square()).unwrap_err();
        assert!(error.message().contains("representative is outside its interval"), "death {death:?}: {}", error.message());
    }
}
