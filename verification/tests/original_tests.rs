use benchy::{Benchy, Data};
use rand::Rng;
use std::time::{Duration, Instant};

fn get_fib(n: u32) -> u32 {
    match n {
        0 => 0,
        1 => 1,
        _ => get_fib(n - 2) + get_fib(n - 1),
    }
}

#[test]
fn empty5sec() {
    let clock = Instant::now();
    let mut b = Benchy::new_duration(
        "empty5sec",
        Duration::from_secs(5).as_micros(),
        clock.elapsed().as_micros(),
    );
    while let Some(_) = b.step(clock.elapsed().as_micros()) {
        // empty
    }
    // finished
    println!("{}", b.report());
}

#[test]
fn rng5sec() {
    let mut rng = rand::thread_rng();
    let clock = Instant::now();
    let mut b = Benchy::new_duration(
        "rng5sec",
        Duration::from_secs(5).as_micros(),
        clock.elapsed().as_micros(),
    );
    while let Some(_) = b.step(clock.elapsed().as_micros()) {
        let _: i32 = rng.gen();
    }
    println!("{}", b.report());
}

#[test]
fn rng5cnt() {
    let mut rng = rand::thread_rng();
    let mut cnt = 0;
    let clock = Instant::now();
    let mut b = Benchy::new_n("rng5cnt", 5, clock.elapsed().as_micros());
    while let Some(i) = b.step(clock.elapsed().as_micros()) {
        println!("cur={}", i);
        let _: i32 = rng.gen();
        cnt += 1;
    }
    println!("cnt={}", cnt);
}

#[test]
fn data1024() {
    let mut d = Data::new();
    for i in 0..1024 {
        d.register_val(i);
    }
    println!("result: {:?}", d);
    println!("100-th: {}", d.nth_from_low(100).unwrap());
    println!("300-th: {}", d.nth_from_low(300).unwrap());
    println!("high 300-th: {}", d.nth_from_high(300).unwrap());
    println!("20%-th: {}", d.percentile(20).unwrap());
    println!("95%-th: {}", d.percentile(95).unwrap());
    println!("99%-th: {}", d.percentile(99).unwrap());
}

#[test]
fn data0() {
    let d = Data::new();
    assert_eq!("(initialized)", d.summary());
}

#[test]
fn data1() {
    let mut b = Benchy::new_n("first", 5, 0);
    b.step(0);
    assert_eq!("(no data)", b.data().summary());
}

#[test]
fn data2() {
    let mut b = Benchy::new_n("second", 5, 0);
    b.step(0);
    b.step(1);
    assert_eq!(
        "cnt=1, avg=1.000, median=0, mode=1, stdev=0.000, min/max=1/1",
        b.data().summary()
    );
}

#[test]
fn datax() {
    let mut rng = rand::thread_rng();
    let mut d = Data::new();
    d.note_warmup();
    for _ in 0..50000 {
        let v: u128 = rng.gen_range(10..1024) + rng.gen_range(10..1024);
        d.register_val(v);
    }
    println!("{:?}\n{}", d, d.summary());
}

#[test]
fn fib() {
    let clock = Instant::now();
    let mut b = Benchy::new_duration(
        "fib3sec",
        Duration::from_secs(3).as_micros(),
        clock.elapsed().as_micros(),
    );
    while let Some(_) = b.step(clock.elapsed().as_micros()) {
        get_fib(40);
    }
    println!("{}", b.report());
}
