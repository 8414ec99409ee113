use grid_mdp::dist::choose_nature_action_randomly;
use grid_mdp::dist::sample_nature_action;
use grid_mdp::dist::NatureDist;
use grid_mdp::model::Action;
use grid_mdp::GridError;
use grid_mdp::PROB_DENOM;

fn noisy_entries() -> Vec<(Action, u64)> {
    vec![
        (Action { di: 0, dj: 0 }, 9_600),
        (Action { di: 1, dj: 0 }, 100),
        (Action { di: 0, dj: 1 }, 100),
        (Action { di: -1, dj: 0 }, 100),
        (Action { di: 0, dj: -1 }, 100),
    ]
}

#[test]
fn accepts_normalized_weights() {
    let d = NatureDist::new(noisy_entries()).unwrap();
    assert_eq!(d.entries.len(), 5);
    let single = NatureDist::new(vec![(Action { di: 0, dj: 0 }, PROB_DENOM)]).unwrap();
    assert_eq!(single.entries.len(), 1);
}

#[test]
fn rejects_malformed_weights() {
    // Under- and over-full mass are both rejected.
    let short = vec![(Action { di: 0, dj: 0 }, 9_999)];
    assert_eq!(NatureDist::new(short).err(), Some(GridError::MalformedDistribution));
    let long = vec![(Action { di: 0, dj: 0 }, 9_000), (Action { di: 1, dj: 0 }, 1_001)];
    assert_eq!(NatureDist::new(long).err(), Some(GridError::MalformedDistribution));
    let empty: Vec<(Action, u64)> = Vec::new();
    assert_eq!(NatureDist::new(empty).err(), Some(GridError::MalformedDistribution));
}

#[test]
fn rejects_unbounded_action() {
    let wild = vec![(Action { di: 2_000_000, dj: 0 }, PROB_DENOM)];
    assert_eq!(NatureDist::new(wild).err(), Some(GridError::MalformedDistribution));
}

#[test]
fn inverse_cdf_walk() {
    let d = NatureDist::new(noisy_entries()).unwrap();
    // The walk accumulates weight in entry order until the draw is covered.
    assert_eq!(sample_nature_action(&d, 0), Action { di: 0, dj: 0 });
    assert_eq!(sample_nature_action(&d, 9_599), Action { di: 0, dj: 0 });
    assert_eq!(sample_nature_action(&d, 9_600), Action { di: 1, dj: 0 });
    assert_eq!(sample_nature_action(&d, 9_699), Action { di: 1, dj: 0 });
    assert_eq!(sample_nature_action(&d, 9_700), Action { di: 0, dj: 1 });
    assert_eq!(sample_nature_action(&d, 9_899), Action { di: -1, dj: 0 });
    assert_eq!(sample_nature_action(&d, 9_999), Action { di: 0, dj: -1 });
}

#[test]
fn random_choice_stays_in_catalog() {
    // A point distribution on a displacement other than the zero fallback:
    // the sampled action must come from the drawn entry, which also checks
    // that the random draw really lies below the denominator.
    let d = NatureDist::new(vec![(Action { di: 1, dj: 1 }, PROB_DENOM)]).unwrap();
    for _ in 0..100 {
        assert_eq!(choose_nature_action_randomly(&d), Action { di: 1, dj: 1 });
    }
    let noisy = NatureDist::new(noisy_entries()).unwrap();
    let catalog: Vec<Action> = noisy_entries().into_iter().map(|e| e.0).collect();
    for _ in 0..200 {
        let a = choose_nature_action_randomly(&noisy);
        assert!(catalog.contains(&a));
    }
}
