use amortize::bignat::BigNat;
use amortize::rat::Rat;
use amortize::schedule::{compute_schedule, LoanTerms, PaymentRecord, ScheduleError};

fn terms(neg_p: bool, p_num: u64, p_den: u64, neg_r: bool, r_num: u64, r_den: u64, periods: usize) -> LoanTerms {
    LoanTerms {
        principal: Rat::new_frac(neg_p, p_num, p_den),
        annual_rate_percent: Rat::new_frac(neg_r, r_num, r_den),
        term_periods: periods,
    }
}

/// Does `r` equal `num / den` exactly? (`r` must be non-negative.)
fn rat_equals_frac(r: &Rat, num: u64, den: u64) -> bool {
    let lhs = r.num.mul(&BigNat::from_u64(den));
    let rhs = BigNat::from_u64(num).mul(&r.den);
    !r.neg && lhs.eq_nat(&rhs)
}

/// Is `|r - num / den| <= tol_num / tol_den`? (`r` must be non-negative.)
fn rat_close_to(r: &Rat, num: u64, den: u64, tol_num: u64, tol_den: u64) -> bool {
    assert!(!r.neg);
    let a = r.num.mul(&BigNat::from_u64(den));
    let b = BigNat::from_u64(num).mul(&r.den);
    let diff = if a.lt(&b) { b.sub(&a) } else { a.sub(&b) };
    let lhs = diff.mul(&BigNat::from_u64(tol_den));
    let rhs = BigNat::from_u64(tol_num).mul(&r.den).mul(&BigNat::from_u64(den));
    !rhs.lt(&lhs)
}

/// `x < y` as rationals (both non-negative).
fn rat_less(x: &Rat, y: &Rat) -> bool {
    let lhs = x.num.mul(&y.den);
    let rhs = y.num.mul(&x.den);
    lhs.lt(&rhs)
}

/// `x == y` as rationals (both non-negative).
fn rat_same(x: &Rat, y: &Rat) -> bool {
    let lhs = x.num.mul(&y.den);
    let rhs = y.num.mul(&x.den);
    lhs.eq_nat(&rhs)
}

/// principal + interest == total, exactly, by cross-multiplication.
fn conserves(rec: &PaymentRecord) -> bool {
    let p = &rec.principal_component;
    let i = &rec.interest_component;
    let t = &rec.total_payment;
    let lhs = p.num.mul(&i.den).add(&i.num.mul(&p.den)).mul(&t.den);
    let rhs = t.num.mul(&p.den.mul(&i.den));
    lhs.eq_nat(&rhs)
}

#[test]
fn rejects_zero_periods() {
    let t = terms(false, 1000, 1, false, 5, 1, 0);
    let r = compute_schedule(&t);
    assert!(matches!(r, Err(ScheduleError::InvalidInput)));
}

#[test]
fn rejects_zero_principal() {
    let t = terms(false, 0, 1, false, 5, 1, 12);
    let r = compute_schedule(&t);
    assert!(matches!(r, Err(ScheduleError::InvalidInput)));
}

#[test]
fn rejects_negative_principal() {
    let t = terms(true, 1000, 1, false, 5, 1, 12);
    let r = compute_schedule(&t);
    assert!(matches!(r, Err(ScheduleError::InvalidInput)));
}

#[test]
fn rejects_negative_rate() {
    let t = terms(false, 1000, 1, true, 5, 1, 12);
    let r = compute_schedule(&t);
    assert!(matches!(r, Err(ScheduleError::InvalidInput)));
}

#[test]
fn accepts_minimal_terms() {
    let t = terms(false, 1, 1, false, 0, 1, 1);
    let s = compute_schedule(&t).unwrap();
    assert_eq!(s.len(), 1);
    assert!(rat_equals_frac(&s[0].total_payment, 1, 1));
    assert!(s[0].remaining_balance.num.is_zero());
}

#[test]
fn length_and_numbering() {
    let t = terms(false, 50000, 1, false, 7, 2, 36);
    let s = compute_schedule(&t).unwrap();
    assert_eq!(s.len(), 36);
    for (idx, rec) in s.iter().enumerate() {
        assert_eq!(rec.period_number, idx + 1);
    }
}

#[test]
fn zero_rate_linear_schedule() {
    let t = terms(false, 1000, 1, false, 0, 1, 10);
    let s = compute_schedule(&t).unwrap();
    assert_eq!(s.len(), 10);
    for (idx, rec) in s.iter().enumerate() {
        assert!(rat_equals_frac(&rec.total_payment, 100, 1));
        assert!(rec.interest_component.num.is_zero());
        assert!(rat_equals_frac(&rec.principal_component, 100, 1));
        let owed = 1000 - 100 * (idx as u64 + 1);
        assert!(rat_equals_frac(&rec.remaining_balance, owed, 1));
    }
    assert!(s[9].remaining_balance.num.is_zero());
}

#[test]
fn one_year_at_one_percent_monthly() {
    // 1200 borrowed at 12% yearly over 12 months: periodic rate 0.01.
    let t = terms(false, 1200, 1, false, 12, 1, 12);
    let s = compute_schedule(&t).unwrap();
    assert_eq!(s.len(), 12);
    // payment is about 106.62, within half a cent
    assert!(rat_close_to(&s[0].total_payment, 10662, 100, 1, 200));
    // first period: interest exactly 12, principal about 94.62
    assert!(rat_equals_frac(&s[0].interest_component, 12, 1));
    assert!(rat_close_to(&s[0].principal_component, 9462, 100, 1, 200));
    assert!(rat_close_to(&s[0].remaining_balance, 110538, 100, 1, 200));
    // final period: the balance is exactly zero
    assert!(s[11].remaining_balance.num.is_zero());
}

#[test]
fn payment_conservation() {
    let t = terms(false, 99999, 100, false, 5, 1, 24);
    let s = compute_schedule(&t).unwrap();
    for rec in s.iter() {
        assert!(conserves(rec));
    }
}

#[test]
fn payment_constant_across_periods() {
    let t = terms(false, 35000, 1, false, 49, 10, 18);
    let s = compute_schedule(&t).unwrap();
    for rec in s.iter().skip(1) {
        assert!(rat_same(&rec.total_payment, &s[0].total_payment));
    }
}

#[test]
fn balance_strictly_decreases() {
    let t = terms(false, 98765, 100, false, 7, 2, 24);
    let s = compute_schedule(&t).unwrap();
    assert!(rat_less(&s[0].remaining_balance, &t.principal));
    for w in s.windows(2) {
        assert!(rat_less(&w[1].remaining_balance, &w[0].remaining_balance));
    }
}

#[test]
fn terminal_balance_exactly_zero() {
    let cases = [
        terms(false, 98765, 100, false, 7, 2, 24),
        terms(false, 250000, 1, false, 65, 10, 360),
        terms(false, 1, 3, false, 100, 1, 2),
        terms(false, 777, 1, false, 0, 7, 5),
    ];
    for t in cases.iter() {
        let s = compute_schedule(t).unwrap();
        let last = &s[s.len() - 1];
        assert!(last.remaining_balance.num.is_zero());
    }
}

#[test]
fn interest_tracks_balance() {
    // interest of period k+1 equals remaining balance of period k times r,
    // checked here for r = 0.01: interest * 100 == previous balance.
    let t = terms(false, 1200, 1, false, 12, 1, 12);
    let s = compute_schedule(&t).unwrap();
    for w in s.windows(2) {
        let scaled = Rat {
            neg: false,
            num: w[1].interest_component.num.mul(&BigNat::from_u64(100)),
            den: w[1].interest_component.den.duplicate(),
        };
        assert!(rat_same(&scaled, &w[0].remaining_balance));
    }
}
