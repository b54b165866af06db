use bin2dec::lights::Lights;

#[test]
fn new_lights_start_on_at_even_indices() {
    let l = Lights::new();
    assert_eq!(l.len(), 7);
    for i in 0..7 {
        assert_eq!(l.is_on(i), i % 2 == 0);
    }
}

#[test]
fn rev_flips_every_light() {
    let mut l = Lights::new();
    l.rev();
    assert_eq!(l.len(), 7);
    for i in 0..7 {
        assert_eq!(l.is_on(i), i % 2 != 0);
    }
}

#[test]
fn rev_twice_restores_the_pattern() {
    let mut l = Lights::new();
    l.rev();
    l.rev();
    for i in 0..7 {
        assert_eq!(l.is_on(i), i % 2 == 0);
    }
}
