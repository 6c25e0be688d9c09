use pref_polys::lp::{
    control_byte, convert_to_bytes, convert_to_words, message, parse_message, reply_byte, reply_of,
    request_of, zeroed, PreferenceLp, PreferenceSolution, Reply, Request, SizeApproxLp,
};

fn word(x: f64) -> [u8; 8] {
    x.to_ne_bytes()
}

fn value(w: &[u8; 8]) -> f64 {
    f64::from_ne_bytes(*w)
}

#[test]
fn control_bytes_are_the_ones_of_the_protocol() {
    assert_eq!(control_byte(Request::Reset), 0);
    assert_eq!(control_byte(Request::AddConstraint), 1);
    assert_eq!(control_byte(Request::Solve), 2);
    assert_eq!(control_byte(Request::SolveExact), 3);
    assert_eq!(control_byte(Request::SetObjective), 4);
    assert_eq!(control_byte(Request::NonBasicConstraints), 5);
    for b in 0..=5u8 {
        assert_eq!(control_byte(request_of(b).unwrap()), b);
    }
    assert_eq!(request_of(6), None);
    assert_eq!(request_of(255), None);
}

#[test]
fn replies_are_solution_or_infeasible() {
    assert_eq!(reply_of(0), Some(Reply::Solution));
    assert_eq!(reply_of(1), Some(Reply::Infeasible));
    assert_eq!(reply_of(2), None);
    assert_eq!(reply_byte(Reply::Solution), 0);
    assert_eq!(reply_byte(Reply::Infeasible), 1);
}

#[test]
fn buffers_have_eight_bytes_per_number() {
    assert_eq!(zeroed(3), vec![0u8; 24]);
    assert_eq!(PreferenceLp::input_buffer(4), vec![0u8; 32]);
    assert_eq!(PreferenceLp::output_buffer(4), vec![0u8; 40]);
    assert_eq!(SizeApproxLp::buffer(2), vec![0u8; 16]);
    assert_eq!(SizeApproxLp::buffer(0), Vec::<u8>::new());
}

#[test]
fn words_and_bytes_convert_back_and_forth() {
    let words = vec![word(1.5), word(-2.25), word(0.0)];
    let bytes = convert_to_bytes(&words);
    assert_eq!(bytes.len(), 24);
    assert_eq!(&bytes[8..16], &(-2.25f64).to_ne_bytes());
    assert_eq!(convert_to_words(&bytes), words);
    // bytes left over are no number
    let mut longer = bytes.clone();
    longer.extend_from_slice(&[1, 2, 3]);
    assert_eq!(convert_to_words(&longer), words);
    assert_eq!(convert_to_words(&vec![1, 2, 3]), Vec::<[u8; 8]>::new());
}

#[test]
fn messages_are_control_byte_then_numbers() {
    let words = vec![word(3.0), word(4.0)];
    let bytes = message(Request::AddConstraint, &words);
    assert_eq!(bytes.len(), 17);
    assert_eq!(bytes[0], 1);
    assert_eq!(&bytes[1..9], &3.0f64.to_ne_bytes());
    assert_eq!(&bytes[9..17], &4.0f64.to_ne_bytes());
    assert_eq!(parse_message(&bytes), Some((Request::AddConstraint, words)));
    assert_eq!(parse_message(&vec![]), None);
    assert_eq!(parse_message(&vec![9]), None);
    assert_eq!(parse_message(&vec![2, 0, 0]), None);
    assert_eq!(parse_message(&vec![2]), Some((Request::Solve, vec![])));
}

#[test]
fn preference_solver_requests() {
    let lp = PreferenceLp::new(3);
    assert_eq!(lp.dim(), 3);
    assert_eq!(lp.reset(), vec![0]);
    assert_eq!(lp.solve(false), vec![2]);
    assert_eq!(lp.solve(true), vec![3]);
    let constraint = vec![word(1.0), word(-1.0), word(0.0)];
    let bytes = lp.add_constraint(&constraint);
    assert_eq!(bytes[0], 1);
    assert_eq!(convert_to_words(&bytes[1..].to_vec()), constraint);
}

#[test]
fn preference_solver_solution_has_margin_last() {
    let lp = PreferenceLp::new(3);
    let reply = convert_to_bytes(&vec![word(0.25), word(0.25), word(0.5), word(-0.125)]);
    let solution = lp.read_solution(0, &reply).unwrap().unwrap();
    assert_eq!(
        solution,
        PreferenceSolution {
            preference: vec![word(0.25), word(0.25), word(0.5)],
            margin: word(-0.125),
        }
    );
    assert_eq!(value(&solution.margin), -0.125);
    assert_eq!(lp.read_solution(1, &vec![]), Ok(None));
    assert_eq!(lp.read_solution(7, &vec![]), Err(7));
}

#[test]
fn size_solver_requests_and_replies() {
    let lp = SizeApproxLp::new(3);
    assert_eq!(lp.dim(), 3);
    assert_eq!(lp.reset(), vec![0]);
    assert_eq!(lp.solve(false), vec![2]);
    assert_eq!(lp.solve(true), vec![3]);
    assert_eq!(lp.non_basic_constraints(), vec![5]);
    let objective = lp.set_obj_fun(&vec![word(-1.0), word(1.0)]);
    assert_eq!(objective[0], 4);
    assert_eq!(objective.len(), 17);
    let constraint = lp.add_constraint(&vec![word(2.0), word(-1.0), word(-2.0)]);
    assert_eq!(constraint[0], 1);
    assert_eq!(constraint.len(), 25);
    let reply = convert_to_bytes(&vec![word(0.5), word(0.0)]);
    assert_eq!(
        lp.read_solution(0, &reply),
        Ok(Some(vec![word(0.5), word(0.0)]))
    );
    assert_eq!(lp.read_solution(1, &vec![]), Ok(None));
    assert_eq!(lp.read_solution(4, &vec![]), Err(4));
}

#[test]
fn tight_constraints_come_row_by_row() {
    let lp = SizeApproxLp::new(3);
    assert_eq!(lp.non_basic_len(2), Some(48));
    assert_eq!(lp.non_basic_len(0), Some(0));
    assert_eq!(lp.non_basic_len(usize::MAX), None);
    let numbers = vec![
        word(4.0),
        word(1.0),
        word(2.0),
        word(-8.0),
        word(-8.0),
        word(-6.0),
    ];
    let rows = lp.read_non_basic(2, &convert_to_bytes(&numbers));
    assert_eq!(
        rows,
        vec![
            vec![word(4.0), word(1.0), word(2.0)],
            vec![word(-8.0), word(-8.0), word(-6.0)],
        ]
    );
}
