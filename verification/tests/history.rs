use modelator::history::Histories;

fn s(text: &str) -> String {
    text.to_string()
}

#[test]
fn histories_guess_one_state_more() {
    let mut histories = Histories::new(s("a"));
    assert_eq!(histories.all_histories(), Vec::<Vec<String>>::new());
    histories.add_history(vec![s("a"), s("b")]);
    histories.add_history(vec![s("b"), s("c"), s("a")]);
    let mut all = histories.all_histories();
    all.sort();
    // the longest history has 3 states, so paths of up to 4 states are given
    assert_eq!(
        all,
        vec![
            vec![s("a")],
            vec![s("a"), s("b")],
            vec![s("a"), s("b"), s("c")],
            vec![s("a"), s("b"), s("c"), s("a")],
        ]
    );
}
