//! The Keccak-f[1600] permutation (FIPS 202, section 3).
use vstd::prelude::*;

verus! {

/// Rotation of a 64-bit lane to the left by `n` bits.
pub open spec fn rol_spec(x: u64, n: u32) -> u64 {
    if n == 0 {
        x
    } else {
        (x << n) | (x >> ((64 - n) as u32))
    }
}

/// The rotation offsets of step rho, indexed by lane `x + 5 * y`.
pub open spec fn rho_offset(i: int) -> u32 {
    seq![0u32, 1u32, 62u32, 28u32, 27u32, 36u32, 44u32, 6u32, 55u32, 20u32, 3u32, 10u32, 43u32, 25u32, 39u32, 41u32, 45u32, 15u32, 21u32, 8u32, 18u32, 2u32, 61u32, 56u32, 14u32][i]
}

/// The round constants of step iota.
pub open spec fn round_constant(i: int) -> u64 {
    seq![0x0000000000000001u64, 0x0000000000008082u64, 0x800000000000808au64, 0x8000000080008000u64, 0x000000000000808bu64, 0x0000000080000001u64, 0x8000000080008081u64, 0x8000000000008009u64, 0x000000000000008au64, 0x0000000000000088u64, 0x0000000080008009u64, 0x000000008000000au64, 0x000000008000808bu64, 0x800000000000008bu64, 0x8000000000008089u64, 0x8000000000008003u64, 0x8000000000008002u64, 0x8000000000000080u64, 0x000000000000800au64, 0x800000008000000au64, 0x8000000080008081u64, 0x8000000000008080u64, 0x0000000080000001u64, 0x8000000080008008u64][i]
}

/// Column parity of column `x` (step theta).
pub open spec fn theta_c(a: Seq<u64>, x: int) -> u64 {
    a[x] ^ a[x + 5] ^ a[x + 10] ^ a[x + 15] ^ a[x + 20]
}

/// The value that step theta mixes into every lane of column `x`.
pub open spec fn theta_d(a: Seq<u64>, x: int) -> u64 {
    theta_c(a, (x + 4) % 5) ^ rol_spec(theta_c(a, (x + 1) % 5), 1)
}

/// Step theta.
pub open spec fn theta(a: Seq<u64>) -> Seq<u64> {
    Seq::new(25, |i: int| a[i] ^ theta_d(a, i % 5))
}

/// Steps rho and pi: lane `(x, y)` is rotated and moved to `(y, 2x + 3y)`.
pub open spec fn rho_pi(a: Seq<u64>) -> Seq<u64> {
    Seq::new(
        25,
        |i: int|
            {
                let src = (i % 5 + 3 * (i / 5)) % 5 + 5 * (i % 5);
                rol_spec(a[src], rho_offset(src))
            },
    )
}

/// Step chi.
pub open spec fn chi(b: Seq<u64>) -> Seq<u64> {
    Seq::new(
        25,
        |i: int|
            {
                let row = 5 * (i / 5);
                let x = i % 5;
                b[i] ^ (!b[row + (x + 1) % 5] & b[row + (x + 2) % 5])
            },
    )
}

/// One round of Keccak-f[1600]: iota after chi after rho and pi after theta.
pub open spec fn keccak_round(a: Seq<u64>, rc: u64) -> Seq<u64> {
    let c = chi(rho_pi(theta(a)));
    c.update(0, c[0] ^ rc)
}

/// The first `n` rounds of Keccak-f[1600] applied to state `a`.
pub open spec fn keccak_rounds(a: Seq<u64>, n: nat) -> Seq<u64>
    decreases n,
{
    if n == 0 {
        a
    } else {
        keccak_round(keccak_rounds(a, (n - 1) as nat), round_constant(n - 1))
    }
}

/// Keccak-f[1600]: all 24 rounds.
pub open spec fn keccak_f(a: Seq<u64>) -> Seq<u64> {
    keccak_rounds(a, 24)
}

#[inline(always)]
fn rol(x: u64, o: u32) -> (r: u64)
    requires
        0 < o < 64,
    ensures
        r == rol_spec(x, o),
{
    (x << o) | (x >> (64 - o))
}

fn round_constants() -> (rc: [u64; 24])
    ensures
        forall|i: int| 0 <= i < 24 ==> #[trigger] rc@[i] == round_constant(i),
{
    let rc: [u64; 24] = [0x0000000000000001, 0x0000000000008082, 0x800000000000808a, 0x8000000080008000, 0x000000000000808b, 0x0000000080000001, 0x8000000080008081, 0x8000000000008009, 0x000000000000008a, 0x0000000000000088, 0x0000000080008009, 0x000000008000000a, 0x000000008000808b, 0x800000000000008b, 0x8000000000008089, 0x8000000000008003, 0x8000000000008002, 0x8000000000000080, 0x000000000000800a, 0x800000008000000a, 0x8000000080008081, 0x8000000000008080, 0x0000000080000001, 0x8000000080008008];
    proof {

        assert(rc@[0] == round_constant(0));
        assert(rc@[1] == round_constant(1));
        assert(rc@[2] == round_constant(2));
        assert(rc@[3] == round_constant(3));
        assert(rc@[4] == round_constant(4));
        assert(rc@[5] == round_constant(5));
        assert(rc@[6] == round_constant(6));
        assert(rc@[7] == round_constant(7));
        assert(rc@[8] == round_constant(8));
        assert(rc@[9] == round_constant(9));
        assert(rc@[10] == round_constant(10));
        assert(rc@[11] == round_constant(11));
        assert(rc@[12] == round_constant(12));
        assert(rc@[13] == round_constant(13));
        assert(rc@[14] == round_constant(14));
        assert(rc@[15] == round_constant(15));
        assert(rc@[16] == round_constant(16));
        assert(rc@[17] == round_constant(17));
        assert(rc@[18] == round_constant(18));
        assert(rc@[19] == round_constant(19));
        assert(rc@[20] == round_constant(20));
        assert(rc@[21] == round_constant(21));
        assert(rc@[22] == round_constant(22));
        assert(rc@[23] == round_constant(23));
    }
    rc
}

/// Applies the Keccak-f[1600] permutation to the 25 lanes of `state`
/// (lane `x + 5 * y` at index `x + 5 * y`).
#[allow(non_snake_case)]
#[verifier::rlimit(100)]
pub fn keccak_f1600(state: &mut [u64; 25])
    ensures
        final(state)@ == keccak_f(old(state)@),
{
    let ghost s0 = state@;
    let RC = round_constants();

    let mut Aba: u64 = state[0];
    let mut Abe: u64 = state[1];
    let mut Abi: u64 = state[2];
    let mut Abo: u64 = state[3];
    let mut Abu: u64 = state[4];
    let mut Aga: u64 = state[5];
    let mut Age: u64 = state[6];
    let mut Agi: u64 = state[7];
    let mut Ago: u64 = state[8];
    let mut Agu: u64 = state[9];
    let mut Aka: u64 = state[10];
    let mut Ake: u64 = state[11];
    let mut Aki: u64 = state[12];
    let mut Ako: u64 = state[13];
    let mut Aku: u64 = state[14];
    let mut Ama: u64 = state[15];
    let mut Ame: u64 = state[16];
    let mut Ami: u64 = state[17];
    let mut Amo: u64 = state[18];
    let mut Amu: u64 = state[19];
    let mut Asa: u64 = state[20];
    let mut Ase: u64 = state[21];
    let mut Asi: u64 = state[22];
    let mut Aso: u64 = state[23];
    let mut Asu: u64 = state[24];
    let mut round: usize = 0;
    while round < 24
        invariant
            round % 2 == 0,
            round <= 24,
            forall|i: int| 0 <= i < 24 ==> #[trigger] RC@[i] == round_constant(i),
            s0 == old(state)@,
            s0.len() == 25,
            Aba == keccak_rounds(s0, round as nat)[0],
            Abe == keccak_rounds(s0, round as nat)[1],
            Abi == keccak_rounds(s0, round as nat)[2],
            Abo == keccak_rounds(s0, round as nat)[3],
            Abu == keccak_rounds(s0, round as nat)[4],
            Aga == keccak_rounds(s0, round as nat)[5],
            Age == keccak_rounds(s0, round as nat)[6],
            Agi == keccak_rounds(s0, round as nat)[7],
            Ago == keccak_rounds(s0, round as nat)[8],
            Agu == keccak_rounds(s0, round as nat)[9],
            Aka == keccak_rounds(s0, round as nat)[10],
            Ake == keccak_rounds(s0, round as nat)[11],
            Aki == keccak_rounds(s0, round as nat)[12],
            Ako == keccak_rounds(s0, round as nat)[13],
            Aku == keccak_rounds(s0, round as nat)[14],
            Ama == keccak_rounds(s0, round as nat)[15],
            Ame == keccak_rounds(s0, round as nat)[16],
            Ami == keccak_rounds(s0, round as nat)[17],
            Amo == keccak_rounds(s0, round as nat)[18],
            Amu == keccak_rounds(s0, round as nat)[19],
            Asa == keccak_rounds(s0, round as nat)[20],
            Ase == keccak_rounds(s0, round as nat)[21],
            Asi == keccak_rounds(s0, round as nat)[22],
            Aso == keccak_rounds(s0, round as nat)[23],
            Asu == keccak_rounds(s0, round as nat)[24],
        decreases 24 - round,
    {
        let ghost a_in = keccak_rounds(s0, round as nat);
        let rc0 = RC[round];
        let rc1 = RC[round + 1];
        let mut BCa: u64;
        let mut BCe: u64;
        let mut BCi: u64;
        let mut BCo: u64;
        let mut BCu: u64;
        let mut Da: u64;
        let mut De: u64;
        let mut Di: u64;
        let mut Do: u64;
        let mut Du: u64;
        let mut Eba: u64;
        let mut Ebe: u64;
        let mut Ebi: u64;
        let mut Ebo: u64;
        let mut Ebu: u64;
        let mut Ega: u64;
        let mut Ege: u64;
        let mut Egi: u64;
        let mut Ego: u64;
        let mut Egu: u64;
        let mut Eka: u64;
        let mut Eke: u64;
        let mut Eki: u64;
        let mut Eko: u64;
        let mut Eku: u64;
        let mut Ema: u64;
        let mut Eme: u64;
        let mut Emi: u64;
        let mut Emo: u64;
        let mut Emu: u64;
        let mut Esa: u64;
        let mut Ese: u64;
        let mut Esi: u64;
        let mut Eso: u64;
        let mut Esu: u64;
        BCa = Aba ^ Aga ^ Aka ^ Ama ^ Asa;
        BCe = Abe ^ Age ^ Ake ^ Ame ^ Ase;
        BCi = Abi ^ Agi ^ Aki ^ Ami ^ Asi;
        BCo = Abo ^ Ago ^ Ako ^ Amo ^ Aso;
        BCu = Abu ^ Agu ^ Aku ^ Amu ^ Asu;
        Da = BCu ^ rol(BCe, 1);
        De = BCa ^ rol(BCi, 1);
        Di = BCe ^ rol(BCo, 1);
        Do = BCi ^ rol(BCu, 1);
        Du = BCo ^ rol(BCa, 1);
        Aba ^= Da;
        BCa = Aba;
        Age ^= De;
        BCe = rol(Age, 44);
        Aki ^= Di;
        BCi = rol(Aki, 43);
        Amo ^= Do;
        BCo = rol(Amo, 21);
        Asu ^= Du;
        BCu = rol(Asu, 14);
        Eba = BCa ^ ((!BCe) & BCi);
        Eba ^= rc0;
        Ebe = BCe ^ ((!BCi) & BCo);
        Ebi = BCi ^ ((!BCo) & BCu);
        Ebo = BCo ^ ((!BCu) & BCa);
        Ebu = BCu ^ ((!BCa) & BCe);
        Abo ^= Do;
        BCa = rol(Abo, 28);
        Agu ^= Du;
        BCe = rol(Agu, 20);
        Aka ^= Da;
        BCi = rol(Aka, 3);
        Ame ^= De;
        BCo = rol(Ame, 45);
        Asi ^= Di;
        BCu = rol(Asi, 61);
        Ega = BCa ^ ((!BCe) & BCi);
        Ege = BCe ^ ((!BCi) & BCo);
        Egi = BCi ^ ((!BCo) & BCu);
        Ego = BCo ^ ((!BCu) & BCa);
        Egu = BCu ^ ((!BCa) & BCe);
        Abe ^= De;
        BCa = rol(Abe, 1);
        Agi ^= Di;
        BCe = rol(Agi, 6);
        Ako ^= Do;
        BCi = rol(Ako, 25);
        Amu ^= Du;
        BCo = rol(Amu, 8);
        Asa ^= Da;
        BCu = rol(Asa, 18);
        Eka = BCa ^ ((!BCe) & BCi);
        Eke = BCe ^ ((!BCi) & BCo);
        Eki = BCi ^ ((!BCo) & BCu);
        Eko = BCo ^ ((!BCu) & BCa);
        Eku = BCu ^ ((!BCa) & BCe);
        Abu ^= Du;
        BCa = rol(Abu, 27);
        Aga ^= Da;
        BCe = rol(Aga, 36);
        Ake ^= De;
        BCi = rol(Ake, 10);
        Ami ^= Di;
        BCo = rol(Ami, 15);
        Aso ^= Do;
        BCu = rol(Aso, 56);
        Ema = BCa ^ ((!BCe) & BCi);
        Eme = BCe ^ ((!BCi) & BCo);
        Emi = BCi ^ ((!BCo) & BCu);
        Emo = BCo ^ ((!BCu) & BCa);
        Emu = BCu ^ ((!BCa) & BCe);
        Abi ^= Di;
        BCa = rol(Abi, 62);
        Ago ^= Do;
        BCe = rol(Ago, 55);
        Aku ^= Du;
        BCi = rol(Aku, 39);
        Ama ^= Da;
        BCo = rol(Ama, 41);
        Ase ^= De;
        BCu = rol(Ase, 2);
        Esa = BCa ^ ((!BCe) & BCi);
        Ese = BCe ^ ((!BCi) & BCo);
        Esi = BCi ^ ((!BCo) & BCu);
        Eso = BCo ^ ((!BCu) & BCa);
        Esu = BCu ^ ((!BCa) & BCe);
        let ghost e_mid = keccak_round(a_in, rc0);
        proof {
            assert(Eba == e_mid[0]);
            assert(Ebe == e_mid[1]);
            assert(Ebi == e_mid[2]);
            assert(Ebo == e_mid[3]);
            assert(Ebu == e_mid[4]);
            assert(Ega == e_mid[5]);
            assert(Ege == e_mid[6]);
            assert(Egi == e_mid[7]);
            assert(Ego == e_mid[8]);
            assert(Egu == e_mid[9]);
            assert(Eka == e_mid[10]);
            assert(Eke == e_mid[11]);
            assert(Eki == e_mid[12]);
            assert(Eko == e_mid[13]);
            assert(Eku == e_mid[14]);
            assert(Ema == e_mid[15]);
            assert(Eme == e_mid[16]);
            assert(Emi == e_mid[17]);
            assert(Emo == e_mid[18]);
            assert(Emu == e_mid[19]);
            assert(Esa == e_mid[20]);
            assert(Ese == e_mid[21]);
            assert(Esi == e_mid[22]);
            assert(Eso == e_mid[23]);
            assert(Esu == e_mid[24]);
        }
        BCa = Eba ^ Ega ^ Eka ^ Ema ^ Esa;
        BCe = Ebe ^ Ege ^ Eke ^ Eme ^ Ese;
        BCi = Ebi ^ Egi ^ Eki ^ Emi ^ Esi;
        BCo = Ebo ^ Ego ^ Eko ^ Emo ^ Eso;
        BCu = Ebu ^ Egu ^ Eku ^ Emu ^ Esu;
        Da = BCu ^ rol(BCe, 1);
        De = BCa ^ rol(BCi, 1);
        Di = BCe ^ rol(BCo, 1);
        Do = BCi ^ rol(BCu, 1);
        Du = BCo ^ rol(BCa, 1);
        Eba ^= Da;
        BCa = Eba;
        Ege ^= De;
        BCe = rol(Ege, 44);
        Eki ^= Di;
        BCi = rol(Eki, 43);
        Emo ^= Do;
        BCo = rol(Emo, 21);
        Esu ^= Du;
        BCu = rol(Esu, 14);
        Aba = BCa ^ ((!BCe) & BCi);
        Aba ^= rc1;
        Abe = BCe ^ ((!BCi) & BCo);
        Abi = BCi ^ ((!BCo) & BCu);
        Abo = BCo ^ ((!BCu) & BCa);
        Abu = BCu ^ ((!BCa) & BCe);
        Ebo ^= Do;
        BCa = rol(Ebo, 28);
        Egu ^= Du;
        BCe = rol(Egu, 20);
        Eka ^= Da;
        BCi = rol(Eka, 3);
        Eme ^= De;
        BCo = rol(Eme, 45);
        Esi ^= Di;
        BCu = rol(Esi, 61);
        Aga = BCa ^ ((!BCe) & BCi);
        Age = BCe ^ ((!BCi) & BCo);
        Agi = BCi ^ ((!BCo) & BCu);
        Ago = BCo ^ ((!BCu) & BCa);
        Agu = BCu ^ ((!BCa) & BCe);
        Ebe ^= De;
        BCa = rol(Ebe, 1);
        Egi ^= Di;
        BCe = rol(Egi, 6);
        Eko ^= Do;
        BCi = rol(Eko, 25);
        Emu ^= Du;
        BCo = rol(Emu, 8);
        Esa ^= Da;
        BCu = rol(Esa, 18);
        Aka = BCa ^ ((!BCe) & BCi);
        Ake = BCe ^ ((!BCi) & BCo);
        Aki = BCi ^ ((!BCo) & BCu);
        Ako = BCo ^ ((!BCu) & BCa);
        Aku = BCu ^ ((!BCa) & BCe);
        Ebu ^= Du;
        BCa = rol(Ebu, 27);
        Ega ^= Da;
        BCe = rol(Ega, 36);
        Eke ^= De;
        BCi = rol(Eke, 10);
        Emi ^= Di;
        BCo = rol(Emi, 15);
        Eso ^= Do;
        BCu = rol(Eso, 56);
        Ama = BCa ^ ((!BCe) & BCi);
        Ame = BCe ^ ((!BCi) & BCo);
        Ami = BCi ^ ((!BCo) & BCu);
        Amo = BCo ^ ((!BCu) & BCa);
        Amu = BCu ^ ((!BCa) & BCe);
        Ebi ^= Di;
        BCa = rol(Ebi, 62);
        Ego ^= Do;
        BCe = rol(Ego, 55);
        Eku ^= Du;
        BCi = rol(Eku, 39);
        Ema ^= Da;
        BCo = rol(Ema, 41);
        Ese ^= De;
        BCu = rol(Ese, 2);
        Asa = BCa ^ ((!BCe) & BCi);
        Ase = BCe ^ ((!BCi) & BCo);
        Asi = BCi ^ ((!BCo) & BCu);
        Aso = BCo ^ ((!BCu) & BCa);
        Asu = BCu ^ ((!BCa) & BCe);
        proof {
            let t = keccak_round(e_mid, rc1);
            assert(Aba == t[0]);
            assert(Abe == t[1]);
            assert(Abi == t[2]);
            assert(Abo == t[3]);
            assert(Abu == t[4]);
            assert(Aga == t[5]);
            assert(Age == t[6]);
            assert(Agi == t[7]);
            assert(Ago == t[8]);
            assert(Agu == t[9]);
            assert(Aka == t[10]);
            assert(Ake == t[11]);
            assert(Aki == t[12]);
            assert(Ako == t[13]);
            assert(Aku == t[14]);
            assert(Ama == t[15]);
            assert(Ame == t[16]);
            assert(Ami == t[17]);
            assert(Amo == t[18]);
            assert(Amu == t[19]);
            assert(Asa == t[20]);
            assert(Ase == t[21]);
            assert(Asi == t[22]);
            assert(Aso == t[23]);
            assert(Asu == t[24]);
            assert(keccak_rounds(s0, (round + 1) as nat) == keccak_round(a_in, round_constant(round as int)));
            assert(keccak_rounds(s0, (round + 2) as nat) == keccak_round(keccak_rounds(s0, (round + 1) as nat), round_constant(round + 1)));
        }
        round = round + 2;
    }
    state[0] = Aba;
    state[1] = Abe;
    state[2] = Abi;
    state[3] = Abo;
    state[4] = Abu;
    state[5] = Aga;
    state[6] = Age;
    state[7] = Agi;
    state[8] = Ago;
    state[9] = Agu;
    state[10] = Aka;
    state[11] = Ake;
    state[12] = Aki;
    state[13] = Ako;
    state[14] = Aku;
    state[15] = Ama;
    state[16] = Ame;
    state[17] = Ami;
    state[18] = Amo;
    state[19] = Amu;
    state[20] = Asa;
    state[21] = Ase;
    state[22] = Asi;
    state[23] = Aso;
    state[24] = Asu;
    assert(state@ =~= keccak_rounds(s0, 24));
}

} // verus!
