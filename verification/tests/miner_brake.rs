use rgb_ln_node::miner::{mine, mine_n_blocks, resume_mining, stop_mining, Chain, Miner};

#[test]
fn mining_follows_the_suspension_count() {
    let mut miner = Miner::new();
    let mut chain = Chain::new();
    assert!(miner.mine(&mut chain, 1));
    assert_eq!(chain.height, 1);

    stop_mining(&mut miner);
    assert!(!miner.mine(&mut chain, 1));
    assert_eq!(chain.height, 1);

    resume_mining(&mut miner);
    assert!(miner.mine(&mut chain, 3));
    assert_eq!(chain.height, 4);
}

#[test]
fn resume_mining_never_underflows() {
    let mut miner = Miner::new();
    resume_mining(&mut miner);
    resume_mining(&mut miner);
    assert_eq!(miner.no_mine_count, 0);
    stop_mining(&mut miner);
    stop_mining(&mut miner);
    assert_eq!(miner.no_mine_count, 2);
    resume_mining(&mut miner);
    assert_eq!(miner.no_mine_count, 1);
}

#[test]
fn mine_releases_one_suspension_when_asked() {
    let mut miner = Miner::new();
    let mut chain = Chain::new();
    stop_mining(&mut miner);
    mine(&mut miner, &mut chain, true);
    assert_eq!(chain.height, 1);
    assert_eq!(miner.no_mine_count, 0);
    mine_n_blocks(&mut miner, &mut chain, false, 6);
    assert_eq!(chain.height, 7);
}
