use randomize::lcg::jump_lcg32_32;

fn step(state: u32, mult: u32, inc: u32) -> u32 {
    state.wrapping_mul(mult).wrapping_add(inc)
}

#[test]
fn jump_lcg_by_zero_is_the_state() {
    assert_eq!(jump_lcg32_32(0, 5, 3, 7), 5);
    assert_eq!(jump_lcg32_32(0, 0xffff_ffff, 0xf13283ad, 0xffff_ffff), 0xffff_ffff);
}

#[test]
fn jump_lcg_by_one_is_one_step() {
    assert_eq!(jump_lcg32_32(1, 5, 3, 7), 22);
    for (state, mult, inc) in [(0u32, 0u32, 0u32), (9, 1, 4), (0xffff_ffff, 0xffff_ffff, 0xffff_ffff)] {
        assert_eq!(jump_lcg32_32(1, state, mult, inc), step(state, mult, inc));
    }
}

#[test]
fn jump_lcg_gives_known_states() {
    assert_eq!(jump_lcg32_32(2, 5, 3, 7), 73);
    assert_eq!(jump_lcg32_32(10, 5, 3, 7), 501913);
    assert_eq!(jump_lcg32_32(1000000, 5, 3, 7), 2771253893);
    assert_eq!(jump_lcg32_32(0xffff_ffff, 5, 3, 7), 2863311530);
    assert_eq!(jump_lcg32_32(12345, 1, 0xf13283ad, 1), 1114097878);
}

#[test]
fn jump_lcg_with_multiplier_one_adds_the_increment() {
    assert_eq!(jump_lcg32_32(7, 9, 1, 4), 37);
    assert_eq!(jump_lcg32_32(0xffff_ffff, 9, 1, 4), 5);
}

#[test]
fn jump_lcg_with_even_multipliers() {
    assert_eq!(jump_lcg32_32(5, 9, 0, 4), 4);
    assert_eq!(jump_lcg32_32(3, 100, 2, 1), 807);
    assert_eq!(jump_lcg32_32(40, 100, 2, 1), 0xffff_ffff);
}

#[test]
fn jump_lcg_equals_repeated_steps() {
    for (start, mult, inc) in [(5u32, 3u32, 7u32), (1, 0xf13283ad, 1), (77, 0x2c9277b5, 0xac564b05), (3, 6, 9)] {
        let mut state = start;
        for delta in 0..500u32 {
            assert_eq!(jump_lcg32_32(delta, start, mult, inc), state);
            state = step(state, mult, inc);
        }
    }
}

#[test]
fn jump_lcg_twice_is_jump_by_the_sum() {
    for (a, b) in [(1u32, 2u32), (1000, 2000), (0xffff_ffff, 2), (0xdead_beef, 0xfeed_f00d)] {
        let mid = jump_lcg32_32(a, 42, 0xf13283ad, 11);
        let twice = jump_lcg32_32(b, mid, 0xf13283ad, 11);
        assert_eq!(twice, jump_lcg32_32(a.wrapping_add(b), 42, 0xf13283ad, 11));
    }
}

#[test]
fn jump_lcg_closes_the_cycle_of_an_odd_multiplier() {
    for (start, mult, inc) in [(5u32, 3u32, 7u32), (123, 0xf13283ad, 2), (0, 1, 1), (9, 0xffff_ffff, 8)] {
        let nearly = jump_lcg32_32(0xffff_ffff, start, mult, inc);
        assert_eq!(step(nearly, mult, inc), start);
    }
    assert_eq!(jump_lcg32_32(0x8000_0000, 123, 0xf13283ad, 2), 123);
}
