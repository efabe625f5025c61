use mamo_sim::mana_pool::ManaPool;
use mamo_sim::rng::Rng;
use mamo_sim::types::SimCard;

fn card(w: u8, u: u8, b: u8, r: u8, g: u8, generic: u8) -> SimCard {
    SimCard {
        flags: 0,
        cmc: w + u + b + r + g + generic,
        power: 0,
        toughness: 0,
        color_mask: 0,
        mana_w: w,
        mana_u: u,
        mana_b: b,
        mana_r: r,
        mana_g: g,
        mana_generic: generic,
        formation_role: 0,
        mechanic_mask: 0,
    }
}

fn pool(w: u8, u: u8, b: u8, r: u8, g: u8, c: u8) -> ManaPool {
    ManaPool { w, u, b, r, g, c }
}

fn sum(p: &ManaPool) -> u32 {
    p.w as u32 + p.u as u32 + p.b as u32 + p.r as u32 + p.g as u32 + p.c as u32
}

#[test]
fn mulberry32_known_sequence() {
    let mut rng = Rng::new(42);
    assert_eq!(rng.next_u32(), 2581720956);
    assert_eq!(rng.next_u32(), 1925393290);
    assert_eq!(rng.next_u32(), 3661312704);
}

#[test]
fn next_usize_is_the_draw_modulo_n() {
    let mut rng = Rng::new(0);
    assert_eq!(rng.next_usize(10), 1144304738 % 10);
}

#[test]
fn next_usize_stays_below_bound() {
    let mut rng = Rng::new(99);
    for n in 1..200usize {
        assert!(rng.next_usize(n) < n);
    }
}

#[test]
fn same_seed_same_sequence() {
    let mut a = Rng::new(123);
    let mut b = Rng::new(123);
    for _ in 0..50 {
        assert_eq!(a.next_u32(), b.next_u32());
    }
}

#[test]
fn pay_spends_exactly_the_cost() {
    let mut p = pool(2, 1, 0, 0, 0, 3);
    let before = sum(&p);
    let c = card(1, 1, 0, 0, 0, 2);
    assert!(p.pay(&c));
    assert_eq!(sum(&p), before - 4);
    // colorless is spent first for generic mana
    assert_eq!((p.w, p.u, p.c), (1, 0, 1));
}

#[test]
fn pay_generic_falls_back_to_colors_in_order() {
    let mut p = pool(1, 2, 0, 0, 0, 1);
    let c = card(0, 0, 0, 0, 0, 3);
    assert!(p.pay(&c));
    assert_eq!((p.w, p.u, p.c), (0, 1, 0));
}

#[test]
fn pay_refuses_missing_colored_pip() {
    let mut p = pool(0, 5, 0, 0, 0, 5);
    let c = card(1, 0, 0, 0, 0, 0);
    assert!(!p.pay(&c));
    assert_eq!((p.w, p.u, p.c), (0, 5, 5));
}

#[test]
fn pay_refuses_short_generic() {
    let mut p = pool(1, 0, 0, 0, 0, 1);
    let c = card(1, 0, 0, 0, 0, 2);
    assert!(!p.can_pay(&c));
    assert!(!p.pay(&c));
    assert_eq!(sum(&p), 2);
}

#[test]
fn can_pay_leaves_pool_unchanged() {
    let p = pool(1, 1, 1, 1, 1, 1);
    assert!(p.can_pay(&card(1, 1, 1, 1, 1, 1)));
    assert_eq!(sum(&p), 6);
}

#[test]
fn total_caps_at_255() {
    assert_eq!(pool(200, 100, 0, 0, 0, 0).total(), 255);
    assert_eq!(pool(1, 2, 3, 4, 5, 6).total(), 21);
}

#[test]
fn color_mask_marks_present_colors() {
    assert_eq!(pool(1, 0, 2, 0, 0, 3).color_mask(), 0x01 | 0x04 | 0x20);
    assert_eq!(ManaPool::empty().color_mask(), 0);
}

#[test]
fn add_from_mask_saturates() {
    let mut p = pool(255, 0, 0, 0, 0, 0);
    p.add_from_mask(0x01 | 0x02 | 0x20);
    assert_eq!((p.w, p.u, p.b, p.c), (255, 1, 0, 1));
}

#[test]
fn k_draws_advance_the_state_by_k_increments() {
    let seed: u32 = 0xfedc_ba98;
    for k in [0u32, 1, 2, 5, 40] {
        let mut rng = Rng::new(seed);
        for _ in 0..k {
            rng.next_u32();
        }
        let mut fresh = Rng::new(seed.wrapping_add(k.wrapping_mul(0x6D2B_79F5)));
        assert_eq!(rng.next_u32(), fresh.next_u32());
    }
}

#[test]
fn shuffle_draws_one_less_than_the_deck() {
    let seed: u32 = 17;
    let mut deck: Vec<u8> = (0..30u8).collect();
    let mut rng = Rng::new(seed);
    mamo_sim::game_engine::shuffle(&mut deck, &mut rng);
    let mut fresh = Rng::new(seed.wrapping_add(29u32.wrapping_mul(0x6D2B_79F5)));
    assert_eq!(rng.next_u32(), fresh.next_u32());
}
