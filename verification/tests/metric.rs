use simgraph::graph::{similarity, Individual, SIM_ONE};

fn ind(bmi: i64) -> Individual {
    Individual {
        bmi,
        waist_circumference: 0,
        bp_systolic: 0,
        bp_diastolic: 0,
        blood_glucose_fasting: 0,
        total_cholesterol: 0,
        triglyceride: 0,
        hdl: 0,
        ldl: 0,
        hba1c: 0,
    }
}

#[test]
fn similarity_of_vector_with_itself_is_one() {
    let v = Individual {
        bmi: 27_300,
        waist_circumference: 94_000,
        bp_systolic: 120_000,
        bp_diastolic: 80_000,
        blood_glucose_fasting: 5_400,
        total_cholesterol: 190_000,
        triglyceride: 150_000,
        hdl: 55_000,
        ldl: 110_000,
        hba1c: 5_600,
    };
    assert_eq!(similarity(&v, &v), SIM_ONE);
}

#[test]
fn similarity_of_distinct_vectors_is_strictly_below_one_and_positive() {
    let a = ind(0);
    let b = ind(1);
    let s = similarity(&a, &b);
    assert!(s < SIM_ONE);
    assert!(s >= 1);
}

#[test]
fn similarity_known_value_for_unit_bmi_difference() {
    // A difference of one unit (1000 thousandths) in body-mass index alone.
    let s = similarity(&ind(0), &ind(1_000));
    assert_eq!(s, 527_864);
}

#[test]
fn similarity_is_symmetric() {
    let a = ind(2_500);
    let b = ind(-1_750);
    assert_eq!(similarity(&a, &b), similarity(&b, &a));
}

#[test]
fn similarity_decreases_as_distance_grows() {
    let s1 = similarity(&ind(0), &ind(1_000));
    let s2 = similarity(&ind(0), &ind(2_000));
    let s3 = similarity(&ind(0), &ind(3_000));
    assert_eq!(s1, 527_864);
    assert_eq!(s2, 358_570);
    assert_eq!(s3, 271_497);
    assert!(s1 > s2 && s2 > s3);
}

#[test]
fn higher_weighted_dimension_drops_similarity_faster() {
    // Glycated hemoglobin carries the largest weight, body-mass index the
    // smallest; the same raw difference must matter more there.
    let mut hb = ind(0);
    hb.hba1c = 1_000;
    let via_hba1c = similarity(&ind(0), &hb);
    let via_bmi = similarity(&ind(0), &ind(1_000));
    assert!(via_hba1c < via_bmi);
}
