use neat::env::Env;
use neat::fixed::{MIN_FITNESS, SCALE};
use neat::genome::gene::Gene;
use neat::genome::gene_trait::Trait;
use neat::genome::Genome;
use neat::node::{Node, NodePlace, NodeType};
use neat::organism::Organism;
use neat::population::Population;
use neat::species::Species;

fn xor_genome(id: i32) -> Genome {
    let mut g = Genome::new(id);
    g.add_trait(Trait::new(1, [100000, 0, 0, 0, 0, 0, 0, 0]));
    g.add_trait(Trait::new(2, [200000, 0, 0, 0, 0, 0, 0, 0]));
    g.add_trait(Trait::new(3, [300000, 0, 0, 0, 0, 0, 0, 0]));
    g.add_node(Node::new(1, None, NodeType::Sensor, NodePlace::Bias));
    g.add_node(Node::new(2, None, NodeType::Sensor, NodePlace::Input));
    g.add_node(Node::new(3, None, NodeType::Sensor, NodePlace::Input));
    g.add_node(Node::new(4, None, NodeType::Neuron, NodePlace::Output));
    g.add_gene(Gene::new(Some(1), 1, 4, 0, false, 1, 0, true));
    g.add_gene(Gene::new(Some(2), 2, 4, 0, false, 2, 0, true));
    g.add_gene(Gene::new(Some(3), 3, 4, 0, false, 3, 0, true));
    g
}

fn genes_with(id: i32, innovations: &[u64]) -> Genome {
    let mut g = Genome::new(id);
    for &i in innovations {
        g.add_gene(Gene::new(None, 1, 2, 0, false, i, 0, true));
    }
    g
}

fn test_env() -> Env {
    let mut env = *Env::new();
    env.disjoint_coeff = SCALE;
    env.excess_coeff = SCALE;
    env.mutdiff_coeff = 400000;
    env.compat_threshold = 3 * SCALE;
    env.age_significance = SCALE;
    env.survival_thresh = 200000;
    env.dropoff_age = 15;
    env.pop_size = 150;
    env
}

fn population_of(genomes: Vec<Genome>) -> Population {
    let mut organisms = Vec::new();
    for g in genomes {
        organisms.push(Organism::new(0, Box::new(g), 1));
    }
    Population {
        organisms,
        species: Vec::new(),
        cur_node_id: 0,
        cur_innov_num: 0,
        last_species: 0,
        mean_fitness: 0,
        variance: 0,
        standard_deviation: 0,
        winnergen: 0,
        highest_fitness: 0,
        highest_last_changed: 0,
    }
}

fn species_of(organisms: &mut Vec<Organism>, fitness: &[i64]) -> Species {
    let mut s = Species::new(1);
    for &f in fitness {
        let mut o = Organism::new(f, Box::new(Genome::new(organisms.len() as i32)), 1);
        o.species = Some(0);
        s.add_organism(organisms.len());
        organisms.push(o);
    }
    s
}

fn offspring_total(p: &Population) -> u64 {
    p.species.iter().map(|s| s.expected_offspring).sum()
}

#[test]
fn one_disjoint_gene_splits_species() {
    let mut env = test_env();
    env.compat_threshold = 500000;
    env.disjoint_coeff = SCALE;
    env.excess_coeff = 0;
    env.mutdiff_coeff = 0;
    let mut p = population_of(vec![genes_with(0, &[1, 2, 3]), genes_with(1, &[1, 3])]);
    p.speciate(&env);
    assert_eq!(p.species.len(), 2);
    assert_eq!(p.organisms[0].species, Some(0));
    assert_eq!(p.organisms[1].species, Some(1));
    assert_eq!(p.species[0].organisms, vec![0]);
    assert_eq!(p.species[1].organisms, vec![1]);
}

#[test]
fn speciation_is_first_fit() {
    let env = test_env();
    // 0 and 2 are identical; 1 is far from both; 3 is close to 0.
    let mut p = population_of(vec![
        genes_with(0, &[1, 2, 3]),
        genes_with(1, &[10, 11, 12, 13]),
        genes_with(2, &[1, 2, 3]),
        genes_with(3, &[1, 2, 4]),
    ]);
    p.speciate(&env);
    assert_eq!(p.species.len(), 2);
    assert_eq!(p.species[0].organisms, vec![0, 2, 3]);
    assert_eq!(p.species[1].organisms, vec![1]);
    assert_eq!(p.species[0].id, 1);
    assert_eq!(p.species[1].id, 2);
    assert_eq!(p.last_species, 2);
}

#[test]
fn adjust_fitness_ranks_and_eliminates() {
    let mut env = test_env();
    env.survival_thresh = 400000;
    let mut organisms = Vec::new();
    let mut s = species_of(&mut organisms, &[1 * SCALE, 2 * SCALE, 3 * SCALE, 4 * SCALE, 5 * SCALE]);
    s.adjust_fitness(&mut organisms, &env);
    // ranked by decreasing shared fitness: organisms 4, 3, 2, 1, 0
    assert_eq!(s.organisms, vec![4, 3, 2, 1, 0]);
    assert!(organisms[4].champion);
    for i in 0..5 {
        assert_eq!(organisms[i].orig_fitness, (i as i64 + 1) * SCALE);
        // no stagnation penalty (debt -14), age factor 1.0, shared by 5
        assert_eq!(organisms[i].fitness, (i as i64 + 1) * SCALE / 5);
    }
    assert!(!organisms[4].eliminate && !organisms[3].eliminate && !organisms[2].eliminate);
    assert!(organisms[1].eliminate && organisms[0].eliminate);
    assert_eq!(s.max_fitness_ever, 5 * SCALE);
    assert_eq!(s.age_of_last_improvement, 0);
}

#[test]
fn adjust_fitness_keeps_a_floor() {
    let env = test_env();
    let mut organisms = Vec::new();
    let mut s = species_of(&mut organisms, &[-3 * SCALE]);
    s.adjust_fitness(&mut organisms, &env);
    assert_eq!(organisms[0].fitness, MIN_FITNESS);
    let mut organisms = Vec::new();
    let mut s = species_of(&mut organisms, &[0, 0]);
    s.adjust_fitness(&mut organisms, &env);
    assert_eq!(organisms[0].fitness, MIN_FITNESS / 2);
    assert_eq!(organisms[1].fitness, MIN_FITNESS / 2);
}

#[test]
fn young_species_get_age_significance() {
    let mut env = test_env();
    env.age_significance = 2 * SCALE;
    let mut organisms = Vec::new();
    let mut s = species_of(&mut organisms, &[SCALE]);
    s.adjust_fitness(&mut organisms, &env);
    assert_eq!(organisms[0].fitness, 2 * SCALE);
    let mut organisms = Vec::new();
    let mut old = species_of(&mut organisms, &[SCALE]);
    old.age = 11;
    old.adjust_fitness(&mut organisms, &env);
    assert_eq!(organisms[0].fitness, SCALE);
}

#[test]
fn stagnation_penalty_from_a_debt_of_zero() {
    let mut env = test_env();
    env.dropoff_age = 15;
    // debt (14 - 0 + 1) - 15 == 0 counts as one: penalised
    let mut organisms = Vec::new();
    let mut s = species_of(&mut organisms, &[SCALE]);
    s.age = 14;
    s.adjust_fitness(&mut organisms, &env);
    assert_eq!(organisms[0].fitness, SCALE / 100);
    // debt -1: not penalised
    let mut organisms = Vec::new();
    let mut t = species_of(&mut organisms, &[SCALE]);
    t.age = 13;
    t.adjust_fitness(&mut organisms, &env);
    assert_eq!(organisms[0].fitness, SCALE);
    // marked for obliteration: penalised whatever the debt
    let mut organisms = Vec::new();
    let mut u = species_of(&mut organisms, &[SCALE]);
    u.age = 13;
    u.set_to_obliterate();
    u.adjust_fitness(&mut organisms, &env);
    assert_eq!(organisms[0].fitness, SCALE / 100);
}

#[test]
fn count_offspring_carries_the_skim() {
    let mut organisms = Vec::new();
    let mut s = species_of(&mut organisms, &[0, 0, 0]);
    organisms[0].expected_offspring = 1700000;
    organisms[1].expected_offspring = 600000;
    organisms[2].expected_offspring = 300000;
    let skim = s.count_offspring(&organisms, 200000);
    // 1 + 0 + 0 whole; skim 0.2 + 0.7 = 0.9, + 0.6 = 1.5 -> one more, 0.5; + 0.3 = 0.8
    assert_eq!(s.expected_offspring, 2);
    assert_eq!(skim, 800000);
}

#[test]
fn count_offspring_carries_many_times_within_one_species() {
    let mut organisms = Vec::new();
    let mut s = species_of(&mut organisms, &[0; 10]);
    for o in organisms.iter_mut() {
        o.expected_offspring = 900000;
    }
    let skim = s.count_offspring(&organisms, 0);
    assert_eq!(s.expected_offspring, 8);
    assert_eq!(skim, SCALE);
}

#[test]
fn compute_max_and_average() {
    let mut organisms = Vec::new();
    let mut s = species_of(&mut organisms, &[SCALE, 4 * SCALE, -2 * SCALE]);
    assert_eq!(s.compute_max_and_average_fitness(&organisms), (SCALE, 4 * SCALE));
    assert_eq!(s.average_fitness, SCALE);
    assert_eq!(s.max_fitness, 4 * SCALE);
    let mut organisms = Vec::new();
    let mut t = species_of(&mut organisms, &[-SCALE, -2 * SCALE]);
    assert_eq!(t.compute_max_and_average_fitness(&organisms), (-1500000, 0));
}

#[test]
fn population_seeds_and_speciates() {
    let env = test_env();
    let start = xor_genome(1);
    let p = Population::new(&start, 20, &env);
    assert_eq!(p.organisms.len(), 20);
    assert_eq!(p.cur_node_id, 4);
    assert_eq!(p.cur_innov_num, 3);
    assert!(p.verify().is_ok());
    for (i, o) in p.organisms.iter().enumerate() {
        assert_eq!(o.genome.id, i as i32);
        assert!(o.species.is_some());
        for k in 0..3 {
            assert_eq!(o.genome.genes[k].innovation_num, k as u64 + 1);
            assert!(o.genome.genes[k].link.weight.abs() <= SCALE);
            assert_eq!(o.genome.genes[k].mutation_num, o.genome.genes[k].link.weight);
            assert!((1..=3).contains(&o.genome.genes[k].link.link_trait.unwrap()));
        }
        for k in 0..4 {
            assert_eq!(o.genome.nodes[k].id, k as i32 + 1);
            assert!((1..=3).contains(&o.genome.nodes[k].node_trait.unwrap()));
        }
    }
    let members: usize = p.species.iter().map(|s| s.organisms.len()).sum();
    assert_eq!(members, 20);
}

#[test]
fn epoch_allots_exactly_the_population() {
    let env = test_env();
    let start = xor_genome(1);
    let mut p = Population::new(&start, 30, &env);
    for (i, o) in p.organisms.iter_mut().enumerate() {
        o.fitness = (i as i64 % 7 + 1) * SCALE / 3;
    }
    for generation in 1..40 {
        p.epoch(generation, &env);
        assert_eq!(offspring_total(&p), 30);
        for o in p.organisms.iter_mut() {
            o.fitness = o.orig_fitness;
        }
    }
}

#[test]
fn epoch_gives_shortfall_to_the_best_species() {
    let mut env = test_env();
    env.compat_threshold = 500000;
    let mut p = population_of(vec![genes_with(0, &[1]), genes_with(1, &[2]), genes_with(2, &[3])]);
    p.speciate(&env);
    assert_eq!(p.species.len(), 3);
    for o in p.organisms.iter_mut() {
        o.fitness = SCALE;
    }
    p.epoch(1, &env);
    // each organism expects exactly one offspring
    assert_eq!(offspring_total(&p), 3);
    for s in p.species.iter() {
        assert_eq!(s.expected_offspring, 1);
    }
    for o in p.organisms.iter() {
        assert_eq!(o.expected_offspring, SCALE);
    }
}

#[test]
fn correction_adds_one_to_the_last_largest() {
    let mut p = population_of(vec![genes_with(0, &[1]), genes_with(1, &[2]), genes_with(2, &[3])]);
    for i in 0..3 {
        let mut s = Species::new(i + 1);
        s.add_organism(i);
        p.organisms[i].species = Some(i);
        p.species.push(s);
    }
    p.species[0].expected_offspring = 1;
    p.species[1].expected_offspring = 0;
    p.species[2].expected_offspring = 1;
    p.correct_offspring(2);
    assert_eq!(p.species[0].expected_offspring, 1);
    assert_eq!(p.species[2].expected_offspring, 2);
    p.species[0].expected_offspring = 0;
    p.species[1].expected_offspring = 1;
    p.species[2].expected_offspring = 0;
    p.correct_offspring(1);
    assert_eq!(p.species[0].expected_offspring, 0);
    assert_eq!(p.species[1].expected_offspring, 3);
    assert_eq!(p.species[2].expected_offspring, 0);
}

#[test]
fn stagnant_species_is_marked_every_thirtieth_generation() {
    let mut p = population_of(vec![genes_with(0, &[1]), genes_with(1, &[2]), genes_with(2, &[3])]);
    for i in 0..3 {
        let mut s = Species::new(i + 1);
        s.add_organism(i);
        s.age = 25;
        p.species.push(s);
    }
    p.species[0].max_fitness = 3 * SCALE;
    p.species[1].max_fitness = SCALE;
    p.species[2].max_fitness = SCALE;
    p.species[1].age = 5;
    p.mark_stagnant_species(29);
    assert!(!p.species.iter().any(|s| s.obliterate));
    p.mark_stagnant_species(60);
    assert!(!p.species[0].obliterate);
    assert!(!p.species[1].obliterate);
    assert!(p.species[2].obliterate);
    assert!(p.species[2].is_to_obliterate());
}

#[test]
fn population_verify_reports_the_first_fault() {
    let mut bad = xor_genome(1);
    bad.nodes.swap(0, 3);
    let p = population_of(vec![xor_genome(0), bad]);
    assert_eq!(p.verify(), Err(neat::genome::GenomeError::NodesOutOfOrder));
}

#[test]
fn xor_test() {
    let generations: usize = 100;
    let mut env = test_env();
    env.num_runs = 1;
    let start_genome = xor_genome(1);
    for _ in 0..env.num_runs {
        let mut population = Population::new(&start_genome, env.pop_size, &env);
        population.verify().unwrap();
        for generation in 1..generations {
            let mut win = false;
            for organism in population.organisms.iter_mut() {
                organism.fitness = 100;
                win = true;
            }
            let n = population.organisms.len();
            for species in population.species.iter_mut() {
                species.compute_max_and_average_fitness(&population.organisms);
            }
            population.epoch(generation, &env);
            assert_eq!(offspring_total(&population), n as u64);
            if win {
                break;
            }
        }
    }
}

#[test]
fn test_rand() {
    const ROUNDS: usize = 1000;
    let mut min = 11.0;
    let mut max = -11.0;
    let mut average = 0.0;
    for _ in 0..ROUNDS {
        let random_value = rand::random::<f64>();
        average += random_value;
        if random_value > max {
            max = random_value;
        } else if random_value < min {
            min = random_value;
        }
    }
    average /= ROUNDS as f64;
    println!("Min {} Max {} Average {}", min, max, average);
}
