use nice_hand_core::ev_calculator::{EVCalculator, EVConfig};
use nice_hand_core::holdem::Act;

#[test]
fn depth_names_pick_settings() {
    let quick = EVConfig::for_depth("quick");
    assert_eq!((quick.sample_count, quick.max_depth, quick.use_opponent_model), (1000, 5, false));
    let deep = EVConfig::for_depth("deep");
    assert_eq!((deep.sample_count, deep.max_depth, deep.use_opponent_model), (50000, 15, true));
    let standard = EVConfig::for_depth("standard");
    assert_eq!(standard.sample_count, 10000);
    let other = EVConfig::for_depth("unknown");
    assert_eq!((other.sample_count, other.max_depth), (10000, 10));
    assert_eq!(EVConfig::quick(Some(50)).sample_count, 50);
    assert_eq!(EVConfig::quick(None).sample_count, 1000);
    assert_eq!(EVConfig::detailed().max_depth, 15);
}

#[test]
fn calculator_keeps_its_settings() {
    let calc = EVCalculator::new(EVConfig::quick(Some(42)));
    assert_eq!(calc.sample_count(), 42);
    assert_eq!(calc.max_depth(), 5);
    assert!(calc.uses_opponent_model());
    assert_eq!(EVCalculator::default().sample_count(), 10000);
}

#[test]
fn action_choices_follow_their_preferences() {
    let calc = EVCalculator::default();
    let all = [Act::Call, Act::Raise(0), Act::Fold];
    assert_eq!(calc.select_defensive_action(&all), Act::Fold);
    assert_eq!(calc.select_raise_first(&all), Act::Raise(0));
    assert_eq!(calc.select_call_first(&all), Act::Call);
    let no_call = [Act::Fold, Act::Raise(0)];
    assert_eq!(calc.select_call_first(&no_call), Act::Raise(0));
    assert_eq!(calc.select_call_or_first(&no_call), Act::Fold);
    assert_eq!(calc.select_defensive_action(&[Act::Raise(0), Act::Call]), Act::Call);
    assert_eq!(calc.select_raise_first(&[Act::Fold]), Act::Fold);
    assert_eq!(calc.select_fold_or_first(&[Act::Call, Act::Raise(0)]), Act::Call);
}

#[test]
fn random_choice_is_one_of_the_actions() {
    let calc = EVCalculator::default();
    assert_eq!(calc.select_random_action(&[Act::Call]), Act::Call);
    let all = [Act::Call, Act::Raise(0), Act::Fold];
    for _ in 0..20 {
        assert!(all.contains(&calc.select_random_action(&all)));
    }
}
