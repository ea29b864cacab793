use randomize::pcg32_32::{pcg_core_state32, rxs_m_xs_u32_to_u32, PCG_MULTIPLIER_32};
use randomize::{Gen32, Pcg32x32};

fn words(g: Pcg32x32) -> [u32; 2] {
    <[u32; 2]>::from(g)
}

#[test]
fn seed_zero_zero_gives_known_words() {
    assert_eq!(words(Pcg32x32::seed(0, 0)), [4046619566, 1]);
}

#[test]
fn first_output_of_seed_zero_zero_is_the_recorded_word() {
    let mut g = Pcg32x32::seed(0, 0);
    assert_eq!(g.next_u32(), 3298818698);
    assert_eq!(words(g), [0x948473b9, 1]);
}

#[test]
fn first_five_outputs_of_seed_zero_zero() {
    let mut g = Pcg32x32::seed(0, 0);
    let got: Vec<u32> = (0..5).map(|_| g.next_u32()).collect();
    assert_eq!(got, vec![3298818698, 906380490, 3312376060, 3388149979, 3346257366]);
    assert_eq!(words(g), [517474352, 1]);
}

#[test]
fn seed_mixes_seed_and_stream() {
    let mut g = Pcg32x32::seed(12345, 67890);
    assert_eq!(words(g.clone()), [3933991211, 135781]);
    let got: Vec<u32> = (0..5).map(|_| g.next_u32()).collect();
    assert_eq!(got, vec![1900346112, 514481764, 142359194, 294872486, 1124711215]);
    assert_eq!(words(g), [2510996748, 135781]);
}

#[test]
fn seed_makes_the_increment_odd() {
    for stream in [0u32, 1, 2, 3, 0x7fff_ffff, 0x8000_0000, 0xffff_fffe, 0xffff_ffff] {
        let inc = words(Pcg32x32::seed(99, stream))[1];
        assert_eq!(inc % 2, 1);
        assert_eq!(inc, stream.wrapping_mul(2).wrapping_add(1));
    }
    assert_eq!(words(Pcg32x32::seed(99, 0x8000_0000))[1], 1);
}

#[test]
fn seed_of_the_largest_inputs_wraps() {
    let mut g = Pcg32x32::seed(0xffff_ffff, 0xffff_ffff);
    assert_eq!(words(g.clone()), [496695461, 4294967295]);
    assert_eq!(g.next_u32(), 2979784094);
}

#[test]
fn seed_is_two_steps_around_the_added_seed() {
    let inc = 2 * 77 + 1;
    let first = pcg_core_state32(0, inc);
    let second = pcg_core_state32(first.wrapping_add(4242), inc);
    assert_eq!(words(Pcg32x32::seed(4242, 77)), [second, inc]);
}

#[test]
fn default_is_the_seed_of_the_default_constants() {
    assert_eq!(Pcg32x32::default(), Pcg32x32::seed(0xcfe0_549b, 0x94b9_5bdb));
    assert_eq!(words(Pcg32x32::default()), [3219390753, 695383991]);
    assert_eq!(Pcg32x32::default().next_u32(), 1927569506);
}

#[test]
fn core_step_multiplies_and_adds_modulo_two_to_the_32() {
    assert_eq!(PCG_MULTIPLIER_32, 0xf13283ad);
    assert_eq!(pcg_core_state32(0, 1), 1);
    assert_eq!(pcg_core_state32(1, 1), 0xf13283ae);
    assert_eq!(pcg_core_state32(5, 7), 3053228648);
    assert_eq!(pcg_core_state32(0xffff_ffff, 0), 0u32.wrapping_sub(0xf13283ad));
}

#[test]
fn permutation_changes_the_state_in_place_and_gives_the_output() {
    let mut state: u32 = 0;
    assert_eq!(rxs_m_xs_u32_to_u32(&mut state), 0);
    assert_eq!(state, 0);

    let mut state: u32 = 0xf13283ae;
    let shift = 4 + (0xf13283aeu32 >> 28);
    let permuted = 0xf13283aeu32 ^ (0xf13283aeu32 >> shift).wrapping_mul(277803737);
    assert_eq!(shift, 19);
    assert_eq!(rxs_m_xs_u32_to_u32(&mut state), 3298818698);
    assert_eq!(state, permuted);
    assert_eq!(permuted ^ (permuted >> 22), 3298818698);
}

#[test]
fn next_u32_steps_the_permuted_state() {
    let mut g = Pcg32x32::from([0xf13283ae, 1]);
    let mut permuted: u32 = 0xf13283ae;
    let out = rxs_m_xs_u32_to_u32(&mut permuted);
    assert_eq!(g.next_u32(), out);
    assert_eq!(words(g), [pcg_core_state32(permuted, 1), 1]);
    assert_ne!(pcg_core_state32(permuted, 1), pcg_core_state32(0xf13283ae, 1));
}

#[test]
fn next_u32_from_state_zero() {
    let mut g = Pcg32x32::from([0, 1]);
    assert_eq!(g.next_u32(), 0);
    assert_eq!(words(g), [1, 1]);
}

#[test]
fn generators_seeded_alike_give_the_same_outputs() {
    for (seed, stream) in [(0u32, 0u32), (1, 2), (12345, 67890), (0xffff_ffff, 0xffff_ffff)] {
        let mut a = Pcg32x32::seed(seed, stream);
        let mut b = Pcg32x32::seed(seed, stream);
        assert_eq!(a, b);
        for round in 0..200u32 {
            assert_eq!(a.next_u32(), b.next_u32());
            assert_eq!(a.next_u64(), b.next_u64());
            assert_eq!(a.next_bounded(round + 1), b.next_bounded(round + 1));
            assert_eq!(a.next_bool(), b.next_bool());
            a.jump(round);
            b.jump(round);
            assert_eq!(a, b);
        }
    }
}

#[test]
fn different_streams_give_different_outputs() {
    let mut a = Pcg32x32::seed(5, 0);
    let mut b = Pcg32x32::seed(5, 1);
    let xs: Vec<u32> = (0..8).map(|_| a.next_u32()).collect();
    let ys: Vec<u32> = (0..8).map(|_| b.next_u32()).collect();
    assert_ne!(xs, ys);
}

#[test]
fn exported_words_are_state_then_increment() {
    let g = Pcg32x32::from([11, 22]);
    assert_eq!(words(g), [11, 22]);
    let back: [u32; 2] = Pcg32x32::from([0xdead_beef, 0x1234_5679]).into();
    assert_eq!(back, [0xdead_beef, 0x1234_5679]);
}

#[test]
fn restored_generator_continues_the_sequence() {
    let mut running = Pcg32x32::seed(2024, 7);
    for _ in 0..17 {
        running.next_u32();
    }
    let saved: [u32; 2] = running.clone().into();
    let mut restored = Pcg32x32::from(saved);
    assert_eq!(restored, running);
    for _ in 0..100 {
        assert_eq!(restored.next_u32(), running.next_u32());
    }
    assert_eq!(words(restored), words(running));
}

#[test]
fn clone_is_the_same_generator() {
    let mut g = Pcg32x32::seed(3, 4);
    let mut h = g.clone();
    assert_eq!(g, h);
    assert_eq!(g.next_u32(), h.next_u32());
    assert_eq!(g, h);
}

#[test]
fn jump_by_zero_changes_nothing() {
    let mut g = Pcg32x32::seed(7, 3);
    let before = g.clone();
    g.jump(0);
    assert_eq!(g, before);
}

#[test]
fn jump_gives_known_states() {
    let start = Pcg32x32::seed(7, 3);
    assert_eq!(words(start.clone()), [818099069, 7]);
    for (delta, state) in [
        (0u32, 818099069u32),
        (1, 2460795520),
        (2, 54980743),
        (3, 2506334274),
        (1000, 3852688357),
        (0x8000_0000, 2965582717),
        (0xffff_ffff, 14),
    ] {
        let mut g = start.clone();
        g.jump(delta);
        assert_eq!(words(g), [state, 7]);
    }
}

#[test]
fn jump_equals_that_many_single_steps() {
    let start = Pcg32x32::seed(31337, 99);
    let [mut state, inc] = words(start.clone());
    for delta in 0..300u32 {
        let mut g = start.clone();
        g.jump(delta);
        assert_eq!(words(g), [state, inc]);
        state = pcg_core_state32(state, inc);
    }
}

#[test]
fn two_jumps_equal_one_jump_by_the_sum() {
    let start = Pcg32x32::seed(7, 3);
    for (a, b) in [
        (0u32, 0u32),
        (1, 1),
        (3, 1000),
        (123456, 654321),
        (0xffff_ffff, 1),
        (0xffff_ffff, 0xffff_ffff),
        (3000000000, 3000000000),
        (0x8000_0000, 0x8000_0000),
    ] {
        let mut twice = start.clone();
        twice.jump(a);
        twice.jump(b);
        let mut once = start.clone();
        once.jump(a.wrapping_add(b));
        assert_eq!(twice, once);
    }
    let mut wrapped = start.clone();
    wrapped.jump(3000000000);
    wrapped.jump(3000000000);
    assert_eq!(words(wrapped), [502394749, 7]);
}

#[test]
fn jump_by_the_whole_cycle_returns() {
    let start = Pcg32x32::seed(7, 3);
    let mut g = start.clone();
    g.jump(0xffff_ffff);
    g.jump(1);
    assert_eq!(g, start);
    let mut h = start.clone();
    h.jump(0x8000_0000);
    h.jump(0x8000_0000);
    assert_eq!(h, start);
}

#[test]
fn jump_back_undoes_a_jump_forward() {
    let start = Pcg32x32::seed(12345, 0);
    let mut expected = start.clone();
    let first = expected.next_u32();
    for k in [1u32, 3, 5, 1000, 0x7fff_ffff] {
        let mut g = start.clone();
        g.jump(k);
        g.jump(0u32.wrapping_sub(k));
        assert_eq!(g, start);
        assert_eq!(g.next_u32(), first);
    }
}

#[test]
fn jump_back_after_three_draws() {
    // A draw permutes the state before the recurrence advances it, so three
    // draws are not three steps of the recurrence: a jump back by 3 leaves a
    // state that the generator did not pass through, and the next output is
    // not the first again.
    let mut g = Pcg32x32::seed(12345, 0);
    assert_eq!(words(g.clone()), [505562419, 1]);
    let first = g.next_u32();
    let second = g.next_u32();
    let third = g.next_u32();
    assert_eq!([first, second, third], [1281581763, 2295145033, 3689675534]);
    assert_eq!(words(g.clone()), [847412366, 1]);
    g.jump(0xffff_fffd);
    assert_eq!(words(g.clone()), [527393083, 1]);
    let fourth = g.next_u32();
    assert_eq!(fourth, 1092136094);
    assert_ne!(fourth, first);
}

#[test]
fn jump_does_not_return_before_the_whole_cycle() {
    for (seed, stream) in [(0u32, 0u32), (7, 3), (0xffff_ffff, 0xffff_ffff)] {
        let start = Pcg32x32::seed(seed, stream);
        for bit in 0..32 {
            let mut g = start.clone();
            g.jump(1 << bit);
            assert_ne!(g, start);
        }
        let mut g = start.clone();
        g.jump(0xffff_ffff);
        assert_ne!(g, start);
    }
}

#[test]
fn jump_returns_early_with_an_even_increment() {
    let start = Pcg32x32::from([123, 2]);
    let mut g = start.clone();
    g.jump(0x8000_0000);
    assert_eq!(g, start);
}
