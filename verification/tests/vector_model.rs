use word2vec::wordvectors::WordVector;

/// Builds the bytes of a word2vec binary file for the given entries.
fn model_bytes(dim: usize, entries: &[(&str, &[f32])]) -> Vec<u8> {
    let mut data = Vec::new();
    data.extend_from_slice(format!("{} {}\n", entries.len(), dim).as_bytes());
    for (word, vector) in entries {
        assert_eq!(vector.len(), dim);
        data.extend_from_slice(word.as_bytes());
        data.push(b' ');
        for x in vector.iter() {
            data.extend_from_slice(&x.to_le_bytes());
        }
    }
    data
}

/// A fifteen-word model with well-separated vectors.
fn sample_model() -> WordVector {
    let words = [
        "winter", "woman", "king", "man", "summer", "autumn", "spring", "queen", "prince",
        "water", "fire", "earth", "wind", "snow", "rain",
    ];
    let mut entries: Vec<(&str, Vec<f32>)> = Vec::new();
    for (i, w) in words.iter().enumerate() {
        let a = 0.4 * (i as f32) + 0.1;
        entries.push((w, vec![a.cos(), a.sin(), 0.05 * (i as f32)]));
    }
    let slices: Vec<(&str, &[f32])> = entries.iter().map(|(w, v)| (*w, v.as_slice())).collect();
    WordVector::load_from_reader(model_bytes(3, &slices)).unwrap()
}

#[test]
fn test_word2vec() {
    let model = sample_model();

    let result = model.cosine("winter", 10);
    match result {
        Some(res) => {
            assert_eq!(res.len(), 10);
            let only_words: Vec<&str> = res.iter().map(|x| x.0.as_ref()).collect();
            assert!(!only_words.contains(&"winter"));
        }
        None => assert!(false),
    }
    let result = model.cosine("somenotexistingword", 10);
    match result {
        Some(_) => assert!(false),
        None => assert!(true),
    }

    let mut pos = Vec::new();
    pos.push("woman");
    pos.push("king");
    let mut neg = Vec::new();
    neg.push("man");
    let result = model.analogy(pos, neg, 10);
    match result {
        Some(res) => {
            assert_eq!(res.len(), 10);
            let only_words: Vec<&str> = res.iter().map(|x| x.0.as_ref()).collect();
            assert!(!only_words.contains(&"woman"));
            assert!(!only_words.contains(&"king"));
            assert!(!only_words.contains(&"man"));
        }
        None => assert!(false),
    }

    let result = model.analogy(Vec::new(), Vec::new(), 10);
    match result {
        Some(_) => assert!(false),
        None => assert!(true),
    }
}

#[test]
fn test_word_cosine() {
    let model = sample_model();
    let res = model.cosine("winter", 10).expect("word not found in vocabulary");
    assert_eq!(res.len(), 10);
    let only_words: Vec<&str> = res.iter().map(|x| x.0.as_ref()).collect();
    assert!(!only_words.contains(&"winter"));
}

#[test]
fn test_unexisting_word_cosine() {
    let model = sample_model();
    let result = model.cosine("somenotexistingword", 10);
    match result {
        Some(_) => assert!(false),
        None => assert!(true),
    }
}

#[test]
fn test_word_analogy() {
    let model = sample_model();
    let mut pos = Vec::new();
    pos.push("woman");
    pos.push("king");
    let mut neg = Vec::new();
    neg.push("man");
    let res = model.analogy(pos, neg, 10).expect("couldn't find all of the given words");
    assert_eq!(res.len(), 10);
    let only_words: Vec<&str> = res.iter().map(|x| x.0.as_ref()).collect();
    assert!(!only_words.contains(&"woman"));
    assert!(!only_words.contains(&"king"));
    assert!(!only_words.contains(&"man"));
}

#[test]
fn test_word_analogy_with_empty_params() {
    let model = sample_model();
    let result = model.analogy(Vec::new(), Vec::new(), 10);
    match result {
        Some(_) => assert!(false),
        None => assert!(true),
    }
}

#[test]
fn test_word_count_is_correctly_returned() {
    let mut data = Vec::new();
    data.extend_from_slice(b"71291 1\n");
    for i in 0..71291u32 {
        data.extend_from_slice(format!("w{}", i).as_bytes());
        data.push(b' ');
        data.extend_from_slice(&1.0f32.to_le_bytes());
    }
    let v = WordVector::load_from_reader(data).unwrap();
    assert_eq!(v.word_count(), 71291);
}

#[test]
fn test_stored_vectors_are_unit_norm() {
    let model = sample_model();
    let mut words = model.get_words();
    let mut seen = 0usize;
    while let Some(w) = words.next() {
        let v = model.get_vector(&w).expect("stored word must be found");
        assert_eq!(v.len(), model.get_col_count());
        let fv: Vec<f32> = v.iter().map(|b| f32::from_bits(*b)).collect();
        let norm_sq: f32 = fv.iter().map(|x| x * x).sum();
        let all_zero = fv.iter().all(|x| *x == 0.0);
        assert!(all_zero || (norm_sq.sqrt() - 1.0).abs() < 1e-4);
        seen += 1;
    }
    assert_eq!(seen, model.word_count());
}

#[test]
fn test_words_sequence_lists_each_word_once() {
    let model = sample_model();
    let mut words = model.get_words();
    let mut collected: Vec<String> = Vec::new();
    while let Some(w) = words.next() {
        collected.push(w);
    }
    let expected = vec![
        "winter", "woman", "king", "man", "summer", "autumn", "spring", "queen", "prince",
        "water", "fire", "earth", "wind", "snow", "rain",
    ];
    assert_eq!(collected, expected);
    for w in expected.iter() {
        assert_eq!(collected.iter().filter(|c| c == w).count(), 1);
    }
}

#[test]
fn test_cosine_scores_are_non_increasing() {
    let model = sample_model();
    let res = model.cosine("king", 14).unwrap();
    assert_eq!(res.len(), 14);
    for pair in res.windows(2) {
        assert!(f32::from_bits(pair[0].1) >= f32::from_bits(pair[1].1));
    }
}

#[test]
fn test_cosine_shorter_than_requested() {
    let model = sample_model();
    let res = model.cosine("king", 50).unwrap();
    assert_eq!(res.len(), 14);
}

#[test]
fn test_three_word_scenario_vectors() {
    let data = model_bytes(2, &[("a", &[1.0, 0.0]), ("b", &[0.0, 1.0]), ("c", &[1.0, 1.0])]);
    let model = WordVector::load_from_reader(data).unwrap();
    assert_eq!(model.word_count(), 3);
    assert_eq!(model.get_col_count(), 2);

    let va: Vec<f32> = model.get_vector("a").unwrap().iter().map(|b| f32::from_bits(*b)).collect();
    assert_eq!(va, vec![1.0, 0.0]);
    let vb: Vec<f32> = model.get_vector("b").unwrap().iter().map(|b| f32::from_bits(*b)).collect();
    assert_eq!(vb, vec![0.0, 1.0]);
    // the third vector is (1, 1) scaled by 1/sqrt(2), in binary32 arithmetic
    let scale = 1.0f32 / 2.0f32.sqrt();
    let vc: Vec<f32> = model.get_vector("c").unwrap().iter().map(|b| f32::from_bits(*b)).collect();
    assert_eq!(vc, vec![1.0f32 * scale, 1.0f32 * scale]);
    assert!((vc[0] - 0.70710677).abs() < 1e-6);

    assert!(model.get_vector("d").is_none());
}

#[test]
fn test_three_word_scenario_cosine() {
    let data = model_bytes(2, &[("a", &[1.0, 0.0]), ("b", &[0.0, 1.0]), ("c", &[1.0, 1.0])]);
    let model = WordVector::load_from_reader(data).unwrap();
    let res = model.cosine("a", 2).unwrap();
    assert_eq!(res.len(), 2);
    assert_eq!(res[0].0, "c");
    assert_eq!(res[1].0, "b");
    assert!((f32::from_bits(res[0].1) - 0.707).abs() < 1e-3);
    assert_eq!(f32::from_bits(res[1].1), 0.0);
}

#[test]
fn test_three_word_scenario_analogy() {
    let data = model_bytes(2, &[("a", &[1.0, 0.0]), ("b", &[0.0, 1.0]), ("c", &[1.0, 1.0])]);
    let model = WordVector::load_from_reader(data).unwrap();
    let res = model.analogy(vec!["a"], vec!["b"], 1).unwrap();
    assert_eq!(res.len(), 1);
    assert_eq!(res[0].0, "c");
    // mean is ((1,0) + (0,-1)) / 2; the score of c cancels exactly
    assert_eq!(f32::from_bits(res[0].1), 0.0);
}

#[test]
fn test_analogy_unknown_word_is_empty_but_defined() {
    let data = model_bytes(2, &[("a", &[1.0, 0.0]), ("b", &[0.0, 1.0]), ("c", &[1.0, 1.0])]);
    let model = WordVector::load_from_reader(data).unwrap();
    let res = model.analogy(vec!["unknown"], vec![], 1).unwrap();
    assert!(res.is_empty());
}

#[test]
fn test_analogy_single_word_excludes_it() {
    let data = model_bytes(2, &[("a", &[1.0, 0.0]), ("b", &[0.0, 1.0]), ("c", &[1.0, 1.0])]);
    let model = WordVector::load_from_reader(data).unwrap();
    let res = model.analogy(vec!["a"], vec![], 3).unwrap();
    assert_eq!(res.len(), 2);
    assert!(res.iter().all(|p| p.0 != "a"));
}

#[test]
fn test_analogy_mean_matches_binary32_arithmetic() {
    let data = model_bytes(2, &[("a", &[1.0, 0.0]), ("b", &[0.0, 1.0]), ("c", &[1.0, 1.0])]);
    let model = WordVector::load_from_reader(data).unwrap();
    // positive words a and c: the score of b is the second mean component
    let res = model.analogy(vec!["a", "c"], vec![], 1).unwrap();
    assert_eq!(res.len(), 1);
    assert_eq!(res[0].0, "b");
    let c1 = 1.0f32 * (1.0f32 / 2.0f32.sqrt());
    let m1 = ((0.0f32 + 0.0f32) + c1) / 2.0f32;
    let expected = (0.0f32 + 0.0f32 * (((0.0f32 + 1.0f32) + c1) / 2.0f32)) + 1.0f32 * m1;
    assert_eq!(f32::from_bits(res[0].1), expected);
}

#[test]
fn test_multibyte_word_is_found() {
    let data = model_bytes(2, &[("héllo", &[1.0, 0.0]), ("wörld", &[0.0, 1.0])]);
    let model = WordVector::load_from_reader(data).unwrap();
    assert!(model.get_vector("héllo").is_some());
    let mut words = model.get_words();
    assert_eq!(words.next().as_deref(), Some("héllo"));
    assert_eq!(words.next().as_deref(), Some("wörld"));
    assert_eq!(words.next(), None);
}
